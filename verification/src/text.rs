//! Characters and strings: the standard-library operations the interpreter
//! relies on, and small verified helpers built on top of them.

use vstd::prelude::*;

verus! {

/// Whether `c` carries the Unicode `White_Space` property.
pub uninterp spec fn unicode_whitespace(c: char) -> bool;

/// Whether `c` is a Unicode letter or number.
pub uninterp spec fn unicode_alphanumeric(c: char) -> bool;

/// The Unicode upper-case mapping of a string.
pub uninterp spec fn uppercase_of(s: Seq<char>) -> Seq<char>;

/// `char::is_whitespace` decides the `White_Space` property of its argument.
pub assume_specification[ char::is_whitespace ](c: char) -> (b: bool)
    ensures
        b == unicode_whitespace(c),
;

/// `char::is_alphanumeric` decides whether its argument is a letter or a number.
pub assume_specification[ char::is_alphanumeric ](c: char) -> (b: bool)
    ensures
        b == unicode_alphanumeric(c),
;

/// `str::to_uppercase` returns the upper-case mapping of the whole string.
pub assume_specification[ str::to_uppercase ](s: &str) -> (upper: std::string::String)
    ensures
        upper@ == uppercase_of(s@),
;

/// `String::push` appends one character.
pub assume_specification[ std::string::String::push ](s: &mut std::string::String, ch: char)
    ensures
        final(s)@ == old(s)@.push(ch),
;

/// `str == str` compares the two strings character by character.
pub assume_specification[ <str as PartialEq>::eq ](a: &str, b: &str) -> (same: bool)
    ensures
        same == (a@ == b@),
;

/// How one value stands to another in a total order.
#[derive(Clone, Copy, Debug, PartialEq, Eq, Structural)]
pub enum Relation {
    Less,
    Equal,
    Greater,
}

impl Relation {
    /// The relation of two integers.
    pub open spec fn of(a: int, b: int) -> Relation {
        if a < b {
            Relation::Less
        } else if a == b {
            Relation::Equal
        } else {
            Relation::Greater
        }
    }

    /// The relation seen from the other side.
    pub open spec fn flip(self) -> Relation {
        match self {
            Relation::Less => Relation::Greater,
            Relation::Equal => Relation::Equal,
            Relation::Greater => Relation::Less,
        }
    }

    /// What an order demands of three of its values `a`, `b`, `c`, where `x`
    /// is how `a` stands to `b`, `y` how `b` stands to `c` and `z` how `a`
    /// stands to `c`: if `a` is not after `b` and `b` not after `c`, then `a`
    /// is not after `c`, and is before it if one of the steps is strict.
    pub open spec fn chains(x: Relation, y: Relation, z: Relation) -> bool {
        x != Relation::Greater && y != Relation::Greater ==> z != Relation::Greater && ((x
            == Relation::Less || y == Relation::Less) ==> z == Relation::Less)
    }

    /// Swaps `Less` and `Greater`.
    pub fn reversed(self) -> (r: Relation)
        ensures
            r == self.flip(),
    {
        match self {
            Relation::Less => Relation::Greater,
            Relation::Equal => Relation::Equal,
            Relation::Greater => Relation::Less,
        }
    }
}

/// The end of the longest run of characters satisfying `p` that starts at `i`.
pub open spec fn scan_while(s: Seq<char>, i: int, p: spec_fn(char) -> bool) -> int
    decreases s.len() - i,
{
    if 0 <= i < s.len() && p(s[i]) {
        scan_while(s, i + 1, p)
    } else {
        i
    }
}

/// `scan_while` stops at the first position at or after `i` whose character
/// fails `p`, or at the end of the text.
pub proof fn lemma_scan_while(s: Seq<char>, i: int, p: spec_fn(char) -> bool)
    requires
        0 <= i <= s.len(),
    ensures
        i <= scan_while(s, i, p) <= s.len(),
        forall|k: int| i <= k < scan_while(s, i, p) ==> p(#[trigger] s[k]),
        scan_while(s, i, p) < s.len() ==> !p(s[scan_while(s, i, p)]),
    decreases s.len() - i,
{
    if i < s.len() && p(s[i]) {
        lemma_scan_while(s, i + 1, p);
    }
}

/// A run of characters that satisfy `p`, ended by one that does not or by the
/// end of the text, is what `scan_while` goes over.
pub proof fn lemma_scan_while_exact(s: Seq<char>, from: int, to: int, p: spec_fn(char) -> bool)
    requires
        0 <= from <= to <= s.len(),
        forall|i: int| from <= i < to ==> p(#[trigger] s[i]),
        to < s.len() ==> !p(s[to]),
    ensures
        scan_while(s, from, p) == to,
    decreases to - from,
{
    if from < to {
        lemma_scan_while_exact(s, from + 1, to, p);
    }
}

/// Lexicographic order on texts, by code point; a proper prefix comes first.
pub open spec fn text_relation(a: Seq<char>, b: Seq<char>) -> Relation
    decreases a.len(),
{
    if a.len() == 0 {
        if b.len() == 0 {
            Relation::Equal
        } else {
            Relation::Less
        }
    } else if b.len() == 0 {
        Relation::Greater
    } else if a[0] != b[0] {
        Relation::of(a[0] as int, b[0] as int)
    } else {
        text_relation(a.drop_first(), b.drop_first())
    }
}

/// Every text equals itself in text order.
pub proof fn lemma_text_relation_same(a: Seq<char>)
    ensures
        text_relation(a, a) == Relation::Equal,
    decreases a.len(),
{
    if a.len() > 0 {
        lemma_text_relation_same(a.drop_first());
    }
}

/// Text order seen from the other side is the flipped order.
pub proof fn lemma_text_relation_flip(a: Seq<char>, b: Seq<char>)
    ensures
        text_relation(b, a) == text_relation(a, b).flip(),
    decreases a.len(),
{
    if a.len() > 0 && b.len() > 0 && a[0] == b[0] {
        lemma_text_relation_flip(a.drop_first(), b.drop_first());
    }
}

/// Text order is transitive.
pub proof fn lemma_text_relation_chains(a: Seq<char>, b: Seq<char>, c: Seq<char>)
    ensures
        Relation::chains(text_relation(a, b), text_relation(b, c), text_relation(a, c)),
    decreases a.len(),
{
    if a.len() > 0 && b.len() > 0 && c.len() > 0 && a[0] == b[0] && b[0] == c[0] {
        lemma_text_relation_chains(a.drop_first(), b.drop_first(), c.drop_first());
    }
}

/// The contents of a list of strings.
pub open spec fn names_view(names: Seq<String>) -> Seq<Seq<char>> {
    Seq::new(names.len(), |i: int| names[i]@)
}

/// A prefix that is one longer ends with the next element.
pub proof fn lemma_take_push<T>(s: Seq<T>, i: int)
    requires
        0 <= i < s.len(),
    ensures
        s.take(i + 1) == s.take(i).push(s[i]),
{
}

/// The first position at or after `i` that holds `name`, or the length of
/// `names` if there is none.
pub open spec fn position_from(names: Seq<Seq<char>>, name: Seq<char>, i: int) -> int
    decreases names.len() - i,
{
    if 0 <= i < names.len() && names[i] != name {
        position_from(names, name, i + 1)
    } else {
        i
    }
}

/// The first position that holds `name`, or the length of `names` if there is
/// none.
pub open spec fn position_of(names: Seq<Seq<char>>, name: Seq<char>) -> int {
    position_from(names, name, 0)
}

/// `position_from` finds the first occurrence at or after `i`.
pub proof fn lemma_position_from(names: Seq<Seq<char>>, name: Seq<char>, i: int)
    requires
        0 <= i <= names.len(),
    ensures
        i <= position_from(names, name, i) <= names.len(),
        forall|k: int| i <= k < position_from(names, name, i) ==> #[trigger] names[k] != name,
        position_from(names, name, i) < names.len() ==> names[position_from(names, name, i)]
            == name,
    decreases names.len() - i,
{
    if i < names.len() && names[i] != name {
        lemma_position_from(names, name, i + 1);
    }
}

/// The first position in `names` that holds `name`, or `names.len()`.
pub fn find_name(names: &Vec<String>, name: &str) -> (p: usize)
    ensures
        p == position_of(names_view(names@), name@),
        p <= names.len(),
{
    let mut i: usize = 0;
    while i < names.len() && !str::eq(names[i].as_str(), name)
        invariant
            i <= names.len(),
            position_of(names_view(names@), name@) == position_from(
                names_view(names@),
                name@,
                i as int,
            ),
        decreases names.len() - i,
    {
        i += 1;
    }
    i
}

/// The characters of a string, in order.
pub fn chars_of(s: &str) -> (v: Vec<char>)
    ensures
        v@ == s@,
{
    let mut v: Vec<char> = Vec::new();
    for c in it: s.chars()
        invariant
            v@ == it.seq().take(it.index() as int),
    {
        v.push(c);
    }
    v
}

/// The string made of `chars[from..to]`.
pub fn string_of(chars: &Vec<char>, from: usize, to: usize) -> (s: String)
    requires
        from <= to <= chars.len(),
    ensures
        s@ == chars@.subrange(from as int, to as int),
{
    let mut s = String::new();
    let mut i: usize = from;
    while i < to
        invariant
            from <= i <= to <= chars.len(),
            s@ == chars@.subrange(from as int, i as int),
        decreases to - i,
    {
        s.push(chars[i]);
        i += 1;
    }
    s
}

/// Compares two texts lexicographically by code point.
pub fn compare_text(a: &Vec<char>, b: &Vec<char>) -> (r: Relation)
    ensures
        r == text_relation(a@, b@),
{
    let mut i: usize = 0;
    assert(a@.skip(0) == a@ && b@.skip(0) == b@);
    while i < a.len() && i < b.len()
        invariant
            i <= a.len(),
            i <= b.len(),
            text_relation(a@, b@) == text_relation(a@.skip(i as int), b@.skip(i as int)),
        decreases a.len() - i,
    {
        let x = a[i];
        let y = b[i];
        proof {
            let sa = a@.skip(i as int);
            let sb = b@.skip(i as int);
            assert(sa[0] == x && sb[0] == y);
            assert(sa.drop_first() == a@.skip(i + 1));
            assert(sb.drop_first() == b@.skip(i + 1));
        }
        if x < y {
            return Relation::Less;
        }
        if x > y {
            return Relation::Greater;
        }
        i += 1;
    }
    proof {
        let sa = a@.skip(i as int);
        let sb = b@.skip(i as int);
        assert(sa.len() == a.len() - i);
        assert(sb.len() == b.len() - i);
    }
    if i < b.len() {
        Relation::Less
    } else if i < a.len() {
        Relation::Greater
    } else {
        Relation::Equal
    }
}

} // verus!
