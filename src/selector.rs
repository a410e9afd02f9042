use vstd::prelude::*;

use crate::decimal::{
    decimal_of, decimal_text, index_of_text, lemma_decimal_digits, lemma_index_of_decimal,
    parse_index,
};

verus! {

/// What one line of input selects from a catalog of example names.
#[derive(PartialEq, Eq, Structural, Debug, Clone, Copy)]
pub enum Selection {
    /// Run the example at this position of the catalog.
    Run(usize),
    /// The input is a number that is no position of the catalog.
    IndexOutOfRange,
    /// The input is neither a number nor the name of an example.
    UnknownName,
    /// The input asks for the default example, and the catalog is empty.
    NoExamples,
}

/// The names of a catalog, as character sequences.
pub open spec fn names_of(examples: Seq<&str>) -> Seq<Seq<char>> {
    examples.map_values(|e: &str| e@)
}

/// The first position of `s` among `names`, if it occurs there.
pub open spec fn position_of(names: Seq<Seq<char>>, s: Seq<char>) -> Option<int>
    decreases names.len(),
{
    if names.len() == 0 {
        None
    } else {
        match position_of(names.drop_last(), s) {
            Some(i) => Some(i),
            None => if names.last() == s {
                Some(names.len() - 1)
            } else {
                None
            },
        }
    }
}

/// What the already trimmed input `s` selects from `names`: the first
/// example when `s` is empty, the example at a position when `s` is a
/// number, else the first example of that exact name.
pub open spec fn resolve(names: Seq<Seq<char>>, s: Seq<char>) -> Selection {
    if s.len() == 0 {
        if names.len() == 0 {
            Selection::NoExamples
        } else {
            Selection::Run(0)
        }
    } else if index_of_text(s) is Some {
        let n = index_of_text(s)->0;
        if n < names.len() {
            Selection::Run(n as usize)
        } else {
            Selection::IndexOutOfRange
        }
    } else {
        match position_of(names, s) {
            Some(i) => Selection::Run(i as usize),
            None => Selection::UnknownName,
        }
    }
}

/// The text shown for a selection that runs nothing, naming the input `s`.
pub open spec fn message_of(sel: Selection, s: Seq<char>) -> Seq<char> {
    match sel {
        Selection::IndexOutOfRange => "The given index \""@ + s
            + "\" doesn't correspond to any known example"@,
        Selection::UnknownName => "\""@ + s + "\" doesn't correspond to any known example"@,
        Selection::NoExamples => "No examples available"@,
        Selection::Run(_) => Seq::empty(),
    }
}

/// The line of the catalog listing for the example `name` at position `i`.
pub open spec fn listing_line(i: nat, name: Seq<char>) -> Seq<char> {
    decimal_of(i) + " "@ + name
}

/// What `str::trim` leaves of `s`.
pub uninterp spec fn trimmed_of(s: Seq<char>) -> Seq<char>;

/// Relies on `str::trim`: the input without its leading and trailing white
/// space, which depends on the characters alone.
#[verifier::external_body]
fn trim_text(s: &str) -> (r: &str)
    ensures
        r@ == trimmed_of(s@),
{
    s.trim()
}

/// A position found by `position_of` holds the name that was looked for.
pub proof fn lemma_position_of(names: Seq<Seq<char>>, s: Seq<char>)
    ensures
        position_of(names, s) is Some ==> {
            let i = position_of(names, s)->0;
            0 <= i < names.len() && names[i] == s
        },
    decreases names.len(),
{
    if names.len() > 0 {
        lemma_position_of(names.drop_last(), s);
    }
}

/// Whether two texts hold the same characters.
pub fn same_text(a: &str, b: &str) -> (r: bool)
    ensures
        r == (a@ == b@),
{
    let n = a.unicode_len();
    if n != b.unicode_len() {
        return false;
    }
    let mut i: usize = 0;
    while i < n
        invariant
            n == a@.len(),
            n == b@.len(),
            i <= n,
            a@.subrange(0, i as int) == b@.subrange(0, i as int),
        decreases n - i,
    {
        if a.get_char(i) != b.get_char(i) {
            return false;
        }
        assert(a@.subrange(0, i + 1) =~= a@.subrange(0, i as int).push(a@[i as int]));
        assert(b@.subrange(0, i + 1) =~= b@.subrange(0, i as int).push(b@[i as int]));
        i = i + 1;
    }
    assert(a@ =~= a@.subrange(0, n as int));
    assert(b@ =~= b@.subrange(0, n as int));
    true
}

/// The first position of `name` in `examples`.
pub fn find_example(examples: &[&str], name: &str) -> (r: Option<usize>)
    ensures
        r is Some <==> position_of(names_of(examples@), name@) is Some,
        r is Some ==> r->0 as int == position_of(names_of(examples@), name@)->0,
{
    let ghost names = names_of(examples@);
    let mut i: usize = 0;
    while i < examples.len()
        invariant
            i <= examples@.len(),
            names == names_of(examples@),
            position_of(names.take(i as int), name@) is None,
        decreases examples@.len() - i,
    {
        assert(names.take(i + 1).drop_last() =~= names.take(i as int));
        if same_text(examples[i], name) {
            assert(position_of(names.take(i + 1), name@) == Some(i as int));
            proof {
                lemma_position_prefix(names, name@, i + 1);
            }
            return Some(i);
        }
        i = i + 1;
    }
    assert(names.take(i as int) =~= names);
    None
}

/// Once a prefix of the names holds `s`, the whole sequence finds it at the
/// same position.
proof fn lemma_position_prefix(names: Seq<Seq<char>>, s: Seq<char>, k: int)
    requires
        0 <= k <= names.len(),
        position_of(names.take(k), s) is Some,
    ensures
        position_of(names, s) == position_of(names.take(k), s),
    decreases names.len(),
{
    if k < names.len() {
        assert(names.drop_last().take(k) =~= names.take(k));
        lemma_position_prefix(names.drop_last(), s, k);
    } else {
        assert(names.take(k) =~= names);
    }
}

/// Resolves the trimmed input `selection` against the catalog `examples`.
pub fn resolve_selection(examples: &[&str], selection: &str) -> (r: Selection)
    ensures
        r == resolve(names_of(examples@), selection@),
        r matches Selection::Run(i) ==> i < examples@.len() && (selection@.len() == 0
            || index_of_text(selection@) is Some || examples@[i as int]@ == selection@),
{
    proof {
        lemma_position_of(names_of(examples@), selection@);
    }
    if selection.unicode_len() == 0 {
        if examples.len() == 0 {
            Selection::NoExamples
        } else {
            Selection::Run(0)
        }
    } else {
        match parse_index(selection) {
            Some(n) => if n < examples.len() {
                Selection::Run(n)
            } else {
                Selection::IndexOutOfRange
            },
            None => match find_example(examples, selection) {
                Some(i) => Selection::Run(i),
                None => Selection::UnknownName,
            },
        }
    }
}

/// The text to show for a selection that runs nothing, naming the input.
pub fn selection_message(sel: Selection, selection: &str) -> (r: String)
    ensures
        r@ == message_of(sel, selection@),
{
    match sel {
        Selection::IndexOutOfRange => {
            let mut r = String::from_str("The given index \"");
            r.append(selection);
            r.append("\" doesn't correspond to any known example");
            r
        },
        Selection::UnknownName => {
            let mut r = String::from_str("\"");
            r.append(selection);
            r.append("\" doesn't correspond to any known example");
            r
        },
        Selection::NoExamples => String::from_str("No examples available"),
        Selection::Run(_) => String::new(),
    }
}

/// Resolves one line of input against the catalog `examples`: `Ok` with the
/// position of the example to run, or `Err` with the text that says why
/// nothing runs. The line is trimmed of surrounding white space first.
pub fn select_example_to_run(examples: &[&str], line: &str) -> (r: Result<usize, String>)
    ensures
        r is Ok <==> resolve(names_of(examples@), trimmed_of(line@)) is Run,
        r is Ok ==> resolve(names_of(examples@), trimmed_of(line@)) == Selection::Run(r->Ok_0),
        r is Ok ==> r->Ok_0 < examples@.len(),
        r is Err ==> r->Err_0@ == message_of(
            resolve(names_of(examples@), trimmed_of(line@)),
            trimmed_of(line@),
        ),
{
    let selection = trim_text(line);
    match resolve_selection(examples, selection) {
        Selection::Run(i) => Ok(i),
        sel => Err(selection_message(sel, selection)),
    }
}

/// The catalog listing: one line per example, its position and its name.
pub fn catalog_listing(examples: &[&str]) -> (r: Vec<String>)
    ensures
        r@.len() == examples@.len(),
        forall|i: int|
            0 <= i < r@.len() ==> #[trigger] r@[i]@ == listing_line(i as nat, examples@[i]@),
{
    let mut r: Vec<String> = Vec::new();
    let mut i: usize = 0;
    while i < examples.len()
        invariant
            i <= examples@.len(),
            r@.len() == i,
            forall|j: int|
                0 <= j < i ==> #[trigger] r@[j]@ == listing_line(j as nat, examples@[j]@),
        decreases examples@.len() - i,
    {
        let mut line = decimal_text(i);
        line.append(" ");
        line.append(examples[i]);
        r.push(line);
        i = i + 1;
    }
    r
}

/// Surrounding white space does not matter: two lines that trim to the same
/// text select the same example, or give the same message. In particular the
/// same line, read twice, selects the same example both times.
pub proof fn lemma_selection_depends_on_trimmed_text(
    names: Seq<Seq<char>>,
    line1: Seq<char>,
    line2: Seq<char>,
)
    requires
        trimmed_of(line1) == trimmed_of(line2),
    ensures
        resolve(names, trimmed_of(line1)) == resolve(names, trimmed_of(line2)),
        message_of(resolve(names, trimmed_of(line1)), trimmed_of(line1)) == message_of(
            resolve(names, trimmed_of(line2)),
            trimmed_of(line2),
        ),
{
}

/// Typing the position that the listing shows for an example selects that
/// example.
pub proof fn lemma_listed_position_selects(names: Seq<Seq<char>>, i: nat)
    requires
        i < names.len() <= usize::MAX,
    ensures
        resolve(names, decimal_of(i)) == Selection::Run(i as usize),
{
    lemma_index_of_decimal(i);
    lemma_decimal_digits(i);
}

} // verus!
