//! Character classes of the dialect and the runs they form.
use vstd::prelude::*;

verus! {

/// Whether `c` is alphabetic or numeric in the Unicode sense.
pub uninterp spec fn alphanumeric(c: char) -> bool;

/// Relies on `char::is_alphanumeric`: the answer depends on the character alone.
/// It is asked only of characters beyond ASCII.
#[verifier::external_body]
fn is_alphanumeric(c: char) -> (r: bool)
    ensures
        r == alphanumeric(c),
{
    c.is_alphanumeric()
}

pub open spec fn is_ascii_char(c: char) -> bool {
    (c as u32) < 0x80
}

pub open spec fn ascii_alphanumeric(c: char) -> bool {
    ('a' <= c && c <= 'z') || ('A' <= c && c <= 'Z') || ('0' <= c && c <= '9')
}

/// The punctuation allowed inside `{...}` and `(...)` besides letters and digits.
pub open spec fn payload_symbol(c: char) -> bool {
    c == '\t' || c == ' ' || c == '/' || c == '-' || c == '_' || c == '@' || c == '.' || c == ','
        || c == '%' || c == '#' || c == '\''
}

/// A character that may stand inside `{...}` or `(...)`.
pub open spec fn payload_char(c: char) -> bool {
    if is_ascii_char(c) {
        ascii_alphanumeric(c) || payload_symbol(c)
    } else {
        alphanumeric(c)
    }
}

/// Space or tab.
pub open spec fn blank(c: char) -> bool {
    c == ' ' || c == '\t'
}

/// The separators of the dialect: space, tab, carriage return, line feed.
pub open spec fn white(c: char) -> bool {
    c == ' ' || c == '\t' || c == '\r' || c == '\n'
}

/// The sets of characters whose runs the grammar measures.
#[derive(Clone, Copy, PartialEq, Eq, Structural)]
pub enum Class {
    Blank,
    White,
    Payload,
    NotWhite,
    NotColon,
    NotNewline,
}

impl Class {
    pub open spec fn holds(self, c: char) -> bool {
        match self {
            Class::Blank => blank(c),
            Class::White => white(c),
            Class::Payload => payload_char(c),
            Class::NotWhite => !white(c),
            Class::NotColon => c != ':',
            Class::NotNewline => c != '\n',
        }
    }

    pub fn test(self, c: char) -> (r: bool)
        ensures
            r == self.holds(c),
    {
        match self {
            Class::Blank => c == ' ' || c == '\t',
            Class::White => c == ' ' || c == '\t' || c == '\r' || c == '\n',
            Class::Payload => {
                // On ASCII, `char::is_alphanumeric` holds exactly of the ASCII
                // letters and digits, so only wider characters are asked of it.
                if (c as u32) < 0x80 {
                    ('a' <= c && c <= 'z') || ('A' <= c && c <= 'Z') || ('0' <= c && c <= '9')
                        || c == '\t' || c == ' ' || c == '/' || c == '-' || c == '_' || c == '@'
                        || c == '.' || c == ',' || c == '%' || c == '#' || c == '\''
                } else {
                    is_alphanumeric(c)
                }
            },
            Class::NotWhite => !(c == ' ' || c == '\t' || c == '\r' || c == '\n'),
            Class::NotColon => c != ':',
            Class::NotNewline => c != '\n',
        }
    }
}

/// The length of the longest prefix of `t` whose characters all belong to `class`.
pub open spec fn lead(t: Seq<char>, class: Class) -> nat
    decreases t.len(),
{
    if t.len() > 0 && class.holds(t[0]) {
        1 + lead(t.drop_first(), class)
    } else {
        0
    }
}

/// Removes separators at the front of `t`.
pub open spec fn trim_front(t: Seq<char>) -> Seq<char>
    decreases t.len(),
{
    if t.len() > 0 && white(t[0]) {
        trim_front(t.drop_first())
    } else {
        t
    }
}

/// Removes separators at the back of `t`.
pub open spec fn trim_back(t: Seq<char>) -> Seq<char>
    decreases t.len(),
{
    if t.len() > 0 && white(t.last()) {
        trim_back(t.drop_last())
    } else {
        t
    }
}

/// `t` without the separators at either end.
pub open spec fn trim(t: Seq<char>) -> Seq<char> {
    trim_back(trim_front(t))
}

pub proof fn lemma_lead_bound(t: Seq<char>, class: Class)
    ensures
        lead(t, class) <= t.len(),
        forall|k: int| 0 <= k < lead(t, class) ==> class.holds(#[trigger] t[k]),
        lead(t, class) < t.len() ==> !class.holds(t[lead(t, class) as int]),
    decreases t.len(),
{
    if t.len() > 0 && class.holds(t[0]) {
        lemma_lead_bound(t.drop_first(), class);
        assert forall|k: int| 0 <= k < lead(t, class) implies class.holds(#[trigger] t[k]) by {
            if k > 0 {
                assert(t[k] == t.drop_first()[k - 1]);
            }
        }
    }
}

/// The end of the run of `class` that starts at `i` in `v`.
pub fn run_end(v: &Vec<char>, i: usize, class: Class) -> (j: usize)
    requires
        i <= v.len(),
    ensures
        i <= j <= v.len(),
        j - i == lead(v@.skip(i as int), class),
{
    let mut j = i;
    while j < v.len() && class.test(v[j])
        invariant
            i <= j <= v.len(),
            lead(v@.skip(i as int), class) == (j - i) + lead(v@.skip(j as int), class),
        decreases v.len() - j,
    {
        assert(v@.skip(j as int).drop_first() =~= v@.skip(j + 1));
        j = j + 1;
    }
    j
}

/// The bounds of `v[lo..hi]` without the separators at either end.
pub fn trim_bounds(v: &Vec<char>, lo: usize, hi: usize) -> (r: (usize, usize))
    requires
        lo <= hi <= v.len(),
    ensures
        lo <= r.0 <= r.1 <= hi,
        v@.subrange(r.0 as int, r.1 as int) == trim(v@.subrange(lo as int, hi as int)),
{
    let mut a = lo;
    while a < hi && (v[a] == ' ' || v[a] == '\t' || v[a] == '\r' || v[a] == '\n')
        invariant
            lo <= a <= hi <= v.len(),
            trim_front(v@.subrange(lo as int, hi as int)) == trim_front(
                v@.subrange(a as int, hi as int),
            ),
        decreases hi - a,
    {
        assert(v@.subrange(a as int, hi as int).drop_first() =~= v@.subrange(a + 1, hi as int));
        a = a + 1;
    }
    let mut b = hi;
    while b > a && (v[b - 1] == ' ' || v[b - 1] == '\t' || v[b - 1] == '\r' || v[b - 1] == '\n')
        invariant
            lo <= a <= b <= hi <= v.len(),
            trim_front(v@.subrange(lo as int, hi as int)) == v@.subrange(a as int, hi as int),
            trim_back(v@.subrange(a as int, hi as int)) == trim_back(
                v@.subrange(a as int, b as int),
            ),
        decreases b - a,
    {
        assert(v@.subrange(a as int, b as int).drop_last() =~= v@.subrange(a as int, b - 1));
        b = b - 1;
    }
    (a, b)
}

/// The characters of `s`, in order.
pub fn chars_of(s: &str) -> (v: Vec<char>)
    ensures
        v@ == s@,
{
    broadcast use vstd::string::group_string_axioms;

    let mut v: Vec<char> = Vec::new();
    for c in it: s.chars()
        invariant
            v@ == it.history(),
    {
        v.push(c);
    }
    assert(v@ =~= s@);
    v
}

} // verus!
