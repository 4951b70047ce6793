//! The predicate language `key OP value` of first-party caveats.

use crate::error::StroopwafelError;
use crate::text;
use vstd::prelude::*;

verus! {

/// Comparison operators of the predicate language.
#[derive(Debug, Clone, Copy, PartialEq, Eq, Structural)]
pub enum Operator {
    /// `=`
    Equal,
    /// `!=`
    NotEqual,
    /// `<`
    LessThan,
    /// `>`
    GreaterThan,
    /// `<=`
    LessThanOrEqual,
    /// `>=`
    GreaterThanOrEqual,
}

/// Characters with the Unicode White_Space property, which `str::trim` removes.
pub open spec fn is_white_space(c: char) -> bool {
    let u = c as u32;
    (0x09 <= u <= 0x0d) || u == 0x20 || u == 0x85 || u == 0xa0 || u == 0x1680 || (0x2000 <= u <= 0x200a)
        || u == 0x2028 || u == 0x2029 || u == 0x202f || u == 0x205f || u == 0x3000
}

/// The index of the first character at or after `i` that is not white space.
pub open spec fn trim_start_index(s: Seq<char>, i: int) -> int
    decreases s.len() - i,
{
    if i < 0 || i >= s.len() {
        s.len() as int
    } else if is_white_space(s[i]) {
        trim_start_index(s, i + 1)
    } else {
        i
    }
}

/// The end of `s.take(j)` once trailing white space is dropped.
pub open spec fn trim_end_index(s: Seq<char>, j: int) -> int
    decreases j,
{
    if j <= 0 || j > s.len() {
        0
    } else if is_white_space(s[j - 1]) {
        trim_end_index(s, j - 1)
    } else {
        j
    }
}

/// `s` without leading and trailing white space.
pub open spec fn trim(s: Seq<char>) -> Seq<char> {
    let a = trim_start_index(s, 0);
    let b = trim_end_index(s, s.len() as int);
    if a < b {
        s.subrange(a, b)
    } else {
        Seq::empty()
    }
}

/// The operator whose text starts at index `i` of `s`, with its length;
/// two-character operators win over their one-character prefixes.
pub open spec fn operator_at(s: Seq<char>, i: int) -> Option<(Operator, int)> {
    if i < 0 || i >= s.len() {
        None
    } else if i + 1 < s.len() && s[i + 1] == '=' && s[i] == '<' {
        Some((Operator::LessThanOrEqual, 2))
    } else if i + 1 < s.len() && s[i + 1] == '=' && s[i] == '>' {
        Some((Operator::GreaterThanOrEqual, 2))
    } else if i + 1 < s.len() && s[i + 1] == '=' && s[i] == '!' {
        Some((Operator::NotEqual, 2))
    } else if s[i] == '=' {
        Some((Operator::Equal, 1))
    } else if s[i] == '<' {
        Some((Operator::LessThan, 1))
    } else if s[i] == '>' {
        Some((Operator::GreaterThan, 1))
    } else {
        None
    }
}

/// The first index at or after `i` where an operator starts.
pub open spec fn first_operator(s: Seq<char>, i: int) -> Option<int>
    decreases s.len() - i,
{
    if i < 0 || i >= s.len() {
        None
    } else if operator_at(s, i) is Some {
        Some(i)
    } else {
        first_operator(s, i + 1)
    }
}

/// What `s` parses to: key, operator and value, split at the earliest
/// operator and trimmed; `None` without an operator or with an empty side.
pub open spec fn parse_predicate(s: Seq<char>) -> Option<(Seq<char>, Operator, Seq<char>)> {
    match first_operator(s, 0) {
        None => None,
        Some(i) => {
            let (op, n) = operator_at(s, i)->Some_0;
            let key = trim(s.subrange(0, i));
            let value = trim(s.subrange(i + n, s.len() as int));
            if key.len() == 0 || value.len() == 0 {
                None
            } else {
                Some((key, op, value))
            }
        },
    }
}

/// The operator that the text `t` names, if any.
pub open spec fn operator_named(t: Seq<char>) -> Option<Operator> {
    if t.len() == 1 {
        if t[0] == '=' {
            Some(Operator::Equal)
        } else if t[0] == '<' {
            Some(Operator::LessThan)
        } else if t[0] == '>' {
            Some(Operator::GreaterThan)
        } else {
            None
        }
    } else if t.len() == 2 && t[1] == '=' {
        if t[0] == '!' {
            Some(Operator::NotEqual)
        } else if t[0] == '<' {
            Some(Operator::LessThanOrEqual)
        } else if t[0] == '>' {
            Some(Operator::GreaterThanOrEqual)
        } else {
            None
        }
    } else {
        None
    }
}

/// Byte-lexicographic comparison: negative, zero or positive.
pub open spec fn lex_cmp(a: Seq<u8>, b: Seq<u8>) -> int
    decreases a.len(),
{
    if a.len() == 0 {
        if b.len() == 0 {
            0
        } else {
            -1
        }
    } else if b.len() == 0 {
        1
    } else if a[0] < b[0] {
        -1
    } else if a[0] > b[0] {
        1
    } else {
        lex_cmp(a.drop_first(), b.drop_first())
    }
}

impl Operator {
    /// Whether `op` holds between two values whose comparison is `ord`
    /// (negative, zero or positive).
    pub open spec fn holds(self, ord: int) -> bool {
        match self {
            Operator::Equal => ord == 0,
            Operator::NotEqual => ord != 0,
            Operator::LessThan => ord < 0,
            Operator::GreaterThan => ord > 0,
            Operator::LessThanOrEqual => ord <= 0,
            Operator::GreaterThanOrEqual => ord >= 0,
        }
    }

    /// Parses an operator from its text, ignoring surrounding white space.
    pub fn parse(s: &str) -> (r: Option<Operator>)
        ensures
            r == operator_named(trim(s@)),
    {
        let cs = text::chars_of(s);
        let (a, b) = trim_bounds(cs.as_slice());
        if b - a == 1 {
            let c = cs[a];
            if c == '=' {
                Some(Operator::Equal)
            } else if c == '<' {
                Some(Operator::LessThan)
            } else if c == '>' {
                Some(Operator::GreaterThan)
            } else {
                None
            }
        } else if b - a == 2 && cs[a + 1] == '=' {
            let c = cs[a];
            if c == '!' {
                Some(Operator::NotEqual)
            } else if c == '<' {
                Some(Operator::LessThanOrEqual)
            } else if c == '>' {
                Some(Operator::GreaterThanOrEqual)
            } else {
                None
            }
        } else {
            proof {
                if b - a == 2 {
                    assert(trim(s@)[1] == cs@[a + 1]);
                }
            }
            None
        }
    }

    /// Compares two strings byte-lexicographically with this operator.
    pub fn evaluate(&self, left: &str, right: &str) -> (r: bool)
        ensures
            r == self.holds(lex_cmp(vstd::utf8::encode_utf8(left@), vstd::utf8::encode_utf8(right@))),
    {
        let ord = compare_bytes(left.as_bytes(), right.as_bytes());
        match self {
            Operator::Equal => ord == 0,
            Operator::NotEqual => ord != 0,
            Operator::LessThan => ord < 0,
            Operator::GreaterThan => ord > 0,
            Operator::LessThanOrEqual => ord <= 0,
            Operator::GreaterThanOrEqual => ord >= 0,
        }
    }
}

/// Byte-lexicographic comparison of two slices.
fn compare_bytes(a: &[u8], b: &[u8]) -> (r: i8)
    ensures
        r as int == lex_cmp(a@, b@),
{
    let mut i: usize = 0;
    assert(a@.subrange(0, a@.len() as int) =~= a@);
    assert(b@.subrange(0, b@.len() as int) =~= b@);
    while i < a.len() && i < b.len()
        invariant
            i <= a@.len(),
            i <= b@.len(),
            lex_cmp(a@, b@) == lex_cmp(a@.subrange(i as int, a@.len() as int), b@.subrange(i as int, b@.len() as int)),
        decreases a@.len() - i,
    {
        let x = a[i];
        let y = b[i];
        let ghost sa = a@.subrange(i as int, a@.len() as int);
        let ghost sb = b@.subrange(i as int, b@.len() as int);
        assert(sa[0] == x && sb[0] == y);
        if x < y {
            return -1;
        }
        if x > y {
            return 1;
        }
        assert(sa.drop_first() =~= a@.subrange(i + 1, a@.len() as int));
        assert(sb.drop_first() =~= b@.subrange(i + 1, b@.len() as int));
        i += 1;
    }
    if a.len() == i {
        if b.len() == i {
            0
        } else {
            -1
        }
    } else {
        1
    }
}

/// Whether `c` is white space, as `is_white_space` states.
fn white_space(c: char) -> (r: bool)
    ensures
        r == is_white_space(c),
{
    let u = c as u32;
    (0x09 <= u && u <= 0x0d) || u == 0x20 || u == 0x85 || u == 0xa0 || u == 0x1680 || (0x2000 <= u && u <= 0x200a)
        || u == 0x2028 || u == 0x2029 || u == 0x202f || u == 0x205f || u == 0x3000
}

/// The bounds of `cs` without leading and trailing white space.
fn trim_bounds(cs: &[char]) -> (r: (usize, usize))
    ensures
        r.0 <= r.1 <= cs@.len(),
        trim(cs@) == cs@.subrange(r.0 as int, r.1 as int),
{
    let mut a: usize = 0;
    while a < cs.len() && white_space(cs[a])
        invariant
            a <= cs@.len(),
            trim_start_index(cs@, 0) == trim_start_index(cs@, a as int),
        decreases cs@.len() - a,
    {
        a += 1;
    }
    let mut b: usize = cs.len();
    while b > 0 && white_space(cs[b - 1])
        invariant
            b <= cs@.len(),
            trim_end_index(cs@, cs@.len() as int) == trim_end_index(cs@, b as int),
        decreases b,
    {
        b -= 1;
    }
    if a < b {
        (a, b)
    } else {
        assert(cs@.subrange(a as int, a as int) =~= Seq::<char>::empty());
        (a, a)
    }
}

/// The operator at index `i` of `cs`, with the length of its text.
fn operator_at_index(cs: &[char], i: usize) -> (r: Option<(Operator, usize)>)
    requires
        i < cs@.len(),
    ensures
        match r {
            Some((op, n)) => operator_at(cs@, i as int) == Some((op, n as int)),
            None => operator_at(cs@, i as int) is None,
        },
{
    let c = cs[i];
    if i + 1 < cs.len() && cs[i + 1] == '=' {
        if c == '<' {
            return Some((Operator::LessThanOrEqual, 2));
        } else if c == '>' {
            return Some((Operator::GreaterThanOrEqual, 2));
        } else if c == '!' {
            return Some((Operator::NotEqual, 2));
        }
    }
    if c == '=' {
        Some((Operator::Equal, 1))
    } else if c == '<' {
        Some((Operator::LessThan, 1))
    } else if c == '>' {
        Some((Operator::GreaterThan, 1))
    } else {
        None
    }
}

/// A parsed predicate `key OP value`.
#[derive(Debug, Clone, PartialEq, Eq)]
pub struct Predicate {
    /// The key looked up in the context.
    pub key: String,
    /// The comparison operator.
    pub operator: Operator,
    /// The value to compare against.
    pub value: String,
}

impl Predicate {
    /// Parses `key OP value`: the text is split at the earliest operator
    /// (`<=`, `>=` and `!=` before `=`, `<` and `>` at the same place) and
    /// both sides are trimmed; neither may be empty.
    pub fn parse(s: &str) -> (r: Result<Predicate, StroopwafelError>)
        ensures
            match parse_predicate(s@) {
                Some((key, op, value)) => r matches Ok(p) && p.key@ == key && p.operator == op && p.value@ == value,
                None => r matches Err(StroopwafelError::InvalidFormat(_)),
            },
    {
        let cs = text::chars_of(s);
        let mut i: usize = 0;
        while i < cs.len()
            invariant
                cs@ == s@,
                i <= cs@.len(),
                first_operator(cs@, 0) == first_operator(cs@, i as int),
            decreases cs@.len() - i,
        {
            match operator_at_index(cs.as_slice(), i) {
                Some((op, n)) => {
                    let (ka, kb) = trim_bounds(&cs.as_slice()[0..i]);
                    let (va, vb) = trim_bounds(&cs.as_slice()[i + n..cs.len()]);
                    if ka == kb || va == vb {
                        return Err(StroopwafelError::InvalidFormat("Invalid predicate format".to_owned()));
                    }
                    let key_chars = &cs.as_slice()[0..i];
                    let value_chars = &cs.as_slice()[i + n..cs.len()];
                    let key = text::string_from_chars(&key_chars[ka..kb]);
                    let value = text::string_from_chars(&value_chars[va..vb]);
                    return Ok(Predicate { key, operator: op, value });
                },
                None => {},
            }
            i += 1;
        }
        Err(StroopwafelError::InvalidFormat("No operator found in predicate".to_owned()))
    }
}

} // verus!
