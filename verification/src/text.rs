//! Character-level helpers shared by the formula parser and the configuration rules:
//! whitespace, UTF-8 widths, lexicographic order of texts and message assembly.

use vstd::prelude::*;
use vstd::utf8::*;

verus! {

broadcast use {vstd::utf8::char_is_scalar, vstd::utf8::char_u32_cast};

/// Whether `c` has the Unicode `White_Space` property (the test of `char::is_whitespace`):
/// the 25 code points listed for it in the Unicode Character Database's `PropList.txt`.
pub open spec fn is_white_space(c: char) -> bool {
    ||| '\u{9}' <= c && c <= '\u{D}'
    ||| c == ' ' || c == '\u{85}' || c == '\u{A0}' || c == '\u{1680}'
    ||| '\u{2000}' <= c && c <= '\u{200A}'
    ||| c == '\u{2028}' || c == '\u{2029}' || c == '\u{202F}' || c == '\u{205F}' || c == '\u{3000}'
}

/// Whether `c` is whitespace.
pub fn white_space(c: char) -> (r: bool)
    ensures
        r == is_white_space(c),
{
    ('\u{9}' <= c && c <= '\u{D}') || c == ' ' || c == '\u{85}' || c == '\u{A0}' || c == '\u{1680}'
        || ('\u{2000}' <= c && c <= '\u{200A}') || c == '\u{2028}' || c == '\u{2029}'
        || c == '\u{202F}' || c == '\u{205F}' || c == '\u{3000}'
}

/// A text is blank when every character is whitespace (what `str::trim` leaves empty).
pub open spec fn is_blank(s: Seq<char>) -> bool {
    forall|i: int| 0 <= i < s.len() ==> #[trigger] is_white_space(s[i])
}

/// Number of bytes in the UTF-8 encoding of a character sequence.
pub open spec fn utf8_len(s: Seq<char>) -> nat {
    encode_utf8(s).len()
}

/// Byte offset of the character at index `i` of `s`.
pub open spec fn byte_offset(s: Seq<char>, i: int) -> nat {
    utf8_len(s.take(i))
}

/// Strict lexicographic order of character sequences, by code point.
/// This is the order of `String` in Rust (bytewise order of UTF-8 is code point order).
pub open spec fn precedes(a: Seq<char>, b: Seq<char>) -> bool
    decreases a.len(),
{
    if a.len() == 0 {
        b.len() > 0
    } else if b.len() == 0 {
        false
    } else if a[0] != b[0] {
        (a[0] as u32) < (b[0] as u32)
    } else {
        precedes(a.drop_first(), b.drop_first())
    }
}

/// The texts held by a sequence of strings.
pub open spec fn texts(v: Seq<String>) -> Seq<Seq<char>> {
    v.map_values(|s: String| s@)
}

/// A sequence of texts in strictly increasing lexicographic order.
pub open spec fn strictly_sorted(s: Seq<Seq<char>>) -> bool {
    forall|i: int, j: int| 0 <= i < j < s.len() ==> precedes(#[trigger] s[i], #[trigger] s[j])
}

/// The texts of a finite set, listed once each in lexicographic order.
pub open spec fn sorted_texts(set: Set<Seq<char>>) -> Seq<Seq<char>> {
    choose|s: Seq<Seq<char>>| strictly_sorted(s) && s.to_set() == set
}

/// Two strictly sorted sequences with the same elements are equal.
pub proof fn lemma_sorted_unique(a: Seq<Seq<char>>, b: Seq<Seq<char>>)
    requires
        strictly_sorted(a),
        strictly_sorted(b),
        a.to_set() == b.to_set(),
    ensures
        a == b,
    decreases a.len(),
{
    if a.len() == 0 {
        if b.len() > 0 {
            assert(b.to_set().contains(b[0]));
        }
        assert(a =~= b);
    } else {
        assert(a.to_set().contains(a[0]));
        assert(b.to_set().contains(a[0]));
        let j = choose|j: int| 0 <= j < b.len() && b[j] == a[0];
        assert(b.to_set().contains(b[0]));
        let i = choose|i: int| 0 <= i < a.len() && a[i] == b[0];
        if j > 0 {
            assert(precedes(b[0], b[j]));
            if i > 0 {
                assert(precedes(a[0], a[i]));
                lemma_precedes_transitive(a[0], a[i], a[0]);
            }
            lemma_precedes_irreflexive(a[0]);
        }
        assert(a[0] == b[0]);
        let a1 = a.drop_first();
        let b1 = b.drop_first();
        assert forall|x: Seq<char>| a1.to_set().contains(x) <==> b1.to_set().contains(x) by {
            if a1.to_set().contains(x) {
                let k = choose|k: int| 0 <= k < a1.len() && a1[k] == x;
                assert(precedes(a[0], a[k + 1]));
                lemma_precedes_irreflexive(x);
                assert(a.to_set().contains(x));
                let m = choose|m: int| 0 <= m < b.len() && b[m] == x;
                assert(m != 0);
                assert(b1[m - 1] == x);
            }
            if b1.to_set().contains(x) {
                let k = choose|k: int| 0 <= k < b1.len() && b1[k] == x;
                assert(precedes(b[0], b[k + 1]));
                lemma_precedes_irreflexive(x);
                assert(b.to_set().contains(x));
                let m = choose|m: int| 0 <= m < a.len() && a[m] == x;
                assert(m != 0);
                assert(a1[m - 1] == x);
            }
        }
        assert(a1.to_set() =~= b1.to_set());
        lemma_sorted_unique(a1, b1);
        assert(a.len() == b.len());
        assert forall|k: int| 0 <= k < a.len() implies a[k] == b[k] by {
            if k > 0 {
                assert(a[k] == a1[k - 1]);
                assert(b[k] == b1[k - 1]);
            }
        }
        assert(a =~= b);
    }
}

/// `l` with `x` inserted at its place in lexicographic order, unless already present.
pub open spec fn insert_text(l: Seq<Seq<char>>, x: Seq<char>) -> Seq<Seq<char>>
    decreases l.len(),
{
    if l.len() == 0 {
        seq![x]
    } else if x == l[0] {
        l
    } else if precedes(x, l[0]) {
        seq![x] + l
    } else {
        seq![l[0]] + insert_text(l.drop_first(), x)
    }
}

pub proof fn lemma_insert_text(l: Seq<Seq<char>>, x: Seq<char>)
    requires
        strictly_sorted(l),
    ensures
        strictly_sorted(insert_text(l, x)),
        insert_text(l, x).to_set() == l.to_set().insert(x),
    decreases l.len(),
{
    let r = insert_text(l, x);
    if l.len() == 0 {
        assert(r.to_set() =~= l.to_set().insert(x)) by {
            assert(r[0] == x);
        }
    } else if x == l[0] {
        assert(l.to_set().contains(l[0]));
        assert(r.to_set() =~= l.to_set().insert(x));
    } else if precedes(x, l[0]) {
        assert forall|i: int, j: int| 0 <= i < j < r.len() implies precedes(#[trigger] r[i], #[trigger] r[j]) by {
            if i == 0 {
                if j > 1 {
                    assert(precedes(l[0], l[j - 1]));
                    lemma_precedes_transitive(x, l[0], l[j - 1]);
                }
            } else {
                assert(r[i] == l[i - 1] && r[j] == l[j - 1]);
            }
        }
        assert forall|y: Seq<char>| r.to_set().contains(y) <==> l.to_set().insert(x).contains(y) by {
            if r.to_set().contains(y) {
                let k = choose|k: int| 0 <= k < r.len() && r[k] == y;
                if k > 0 {
                    assert(l[k - 1] == y);
                }
            }
            if l.to_set().contains(y) {
                let k = choose|k: int| 0 <= k < l.len() && l[k] == y;
                assert(r[k + 1] == y);
            }
            if y == x {
                assert(r[0] == y);
            }
        }
        assert(r.to_set() =~= l.to_set().insert(x));
    } else {
        lemma_precedes_total(x, l[0]);
        let rest = insert_text(l.drop_first(), x);
        assert(strictly_sorted(l.drop_first())) by {
            assert forall|i: int, j: int| 0 <= i < j < l.drop_first().len() implies precedes(
                #[trigger] l.drop_first()[i],
                #[trigger] l.drop_first()[j],
            ) by {
                assert(precedes(l[i + 1], l[j + 1]));
            }
        }
        lemma_insert_text(l.drop_first(), x);
        assert forall|k: int| 0 <= k < rest.len() implies precedes(l[0], #[trigger] rest[k]) by {
            assert(rest.to_set().contains(rest[k]));
            if rest[k] == x {
            } else {
                let m = choose|m: int| 0 <= m < l.drop_first().len() && l.drop_first()[m] == rest[k];
                assert(precedes(l[0], l[m + 1]));
            }
        }
        assert forall|i: int, j: int| 0 <= i < j < r.len() implies precedes(#[trigger] r[i], #[trigger] r[j]) by {
            if i == 0 {
                assert(r[j] == rest[j - 1]);
            } else {
                assert(r[i] == rest[i - 1] && r[j] == rest[j - 1]);
            }
        }
        assert forall|y: Seq<char>| r.to_set().contains(y) <==> l.to_set().insert(x).contains(y) by {
            if r.to_set().contains(y) {
                let k = choose|k: int| 0 <= k < r.len() && r[k] == y;
                if k > 0 {
                    assert(rest[k - 1] == y);
                    assert(rest.to_set().contains(y));
                    if y != x {
                        let m = choose|m: int| 0 <= m < l.drop_first().len() && l.drop_first()[m] == y;
                        assert(l[m + 1] == y);
                    }
                }
            }
            if l.to_set().insert(x).contains(y) {
                if y == l[0] {
                    assert(r[0] == y);
                } else {
                    if y != x {
                        let m = choose|m: int| 0 <= m < l.len() && l[m] == y;
                        assert(l.drop_first()[m - 1] == y);
                    }
                    assert(l.drop_first().to_set().insert(x).contains(y));
                    let k = choose|k: int| 0 <= k < rest.len() && rest[k] == y;
                    assert(r[k + 1] == y);
                }
            }
        }
        assert(r.to_set() =~= l.to_set().insert(x));
    }
}

/// Every finite set of texts drawn from a sequence has a sorted listing.
pub proof fn lemma_sorted_listing(items: Seq<Seq<char>>, keep: spec_fn(Seq<char>) -> bool)
    ensures
        strictly_sorted(sorted_texts(Set::new(|d: Seq<char>| items.contains(d) && keep(d)))),
        sorted_texts(Set::new(|d: Seq<char>| items.contains(d) && keep(d))).to_set() == Set::new(
            |d: Seq<char>| items.contains(d) && keep(d),
        ),
    decreases items.len(),
{
    let set = Set::new(|d: Seq<char>| items.contains(d) && keep(d));
    if items.len() == 0 {
        let e = Seq::<Seq<char>>::empty();
        assert(e.to_set() =~= set);
    } else {
        let front = items.drop_last();
        let x = items.last();
        lemma_sorted_listing(front, keep);
        let smaller = Set::new(|d: Seq<char>| front.contains(d) && keep(d));
        let l = sorted_texts(smaller);
        let witness = if keep(x) {
            lemma_insert_text(l, x);
            insert_text(l, x)
        } else {
            l
        };
        assert forall|d: Seq<char>| witness.to_set().contains(d) <==> set.contains(d) by {
            if front.contains(d) {
                let k = choose|k: int| 0 <= k < front.len() && front[k] == d;
                assert(items[k] == d);
            }
            if items.contains(d) {
                let k = choose|k: int| 0 <= k < items.len() && items[k] == d;
                if k < items.len() - 1 {
                    assert(front[k] == d);
                }
            }
        }
        assert(witness.to_set() =~= set);
    }
}

/// A strictly sorted sequence is the sorted listing of its elements.
pub proof fn lemma_sorted_texts(s: Seq<Seq<char>>)
    requires
        strictly_sorted(s),
    ensures
        sorted_texts(s.to_set()) == s,
{
    let c = sorted_texts(s.to_set());
    lemma_sorted_unique(c, s);
}

pub proof fn lemma_encode_utf8_concat(a: Seq<char>, b: Seq<char>)
    ensures
        encode_utf8(a + b) == encode_utf8(a) + encode_utf8(b),
    decreases a.len(),
{
    if a.len() == 0 {
        assert(a + b =~= b);
        assert(encode_utf8(a) + encode_utf8(b) =~= encode_utf8(b));
    } else {
        assert((a + b).drop_first() =~= a.drop_first() + b);
        lemma_encode_utf8_concat(a.drop_first(), b);
        assert(encode_utf8(a + b) =~= encode_scalar(a[0] as u32) + (encode_utf8(a.drop_first())
            + encode_utf8(b)));
    }
}

/// The byte offset advances by the width of each character.
pub proof fn lemma_byte_offset_step(s: Seq<char>, i: int)
    requires
        0 <= i < s.len(),
    ensures
        byte_offset(s, i + 1) == byte_offset(s, i) + encode_scalar(s[i] as u32).len(),
        byte_offset(s, i + 1) <= utf8_len(s),
{
    assert(s.take(i + 1) =~= s.take(i) + seq![s[i]]);
    lemma_encode_utf8_concat(s.take(i), seq![s[i]]);
    assert(seq![s[i]].drop_first() =~= Seq::<char>::empty());
    reveal_with_fuel(encode_utf8, 2);
    assert(encode_utf8(seq![s[i]]) =~= encode_scalar(s[i] as u32));
    assert(s =~= s.take(i + 1) + s.skip(i + 1));
    lemma_encode_utf8_concat(s.take(i + 1), s.skip(i + 1));
}

/// Number of bytes of `c` in UTF-8 (`char::len_utf8`).
pub fn utf8_width(c: char) -> (n: usize)
    ensures
        n == encode_scalar(c as u32).len(),
        1 <= n <= 4,
{
    let x = c as u32;
    proof {
        assert(is_scalar(c as u32));
    }
    if x <= 0x7F {
        1
    } else if x <= 0x7FF {
        2
    } else if x <= 0xFFFF {
        3
    } else {
        4
    }
}

/// The characters of a string, in order.
pub fn chars_of(s: &str) -> (v: Vec<char>)
    ensures
        v@ == s@,
{
    let n = s.unicode_len();
    let mut v: Vec<char> = Vec::new();
    let mut i: usize = 0;
    while i < n
        invariant
            n == s@.len(),
            i <= n,
            v@ == s@.take(i as int),
        decreases n - i,
    {
        let c = s.get_char(i);
        v.push(c);
        i = i + 1;
        assert(v@ =~= s@.take(i as int));
    }
    assert(s@.take(n as int) =~= s@);
    v
}

/// Whether every character of `s` is whitespace (`s.trim().is_empty()`).
pub fn blank(s: &str) -> (r: bool)
    ensures
        r == is_blank(s@),
{
    let chars = chars_of(s);
    let mut i: usize = 0;
    while i < chars.len()
        invariant
            chars@ == s@,
            i <= chars.len(),
            forall|j: int| 0 <= j < i ==> #[trigger] is_white_space(s@[j]),
        decreases chars.len() - i,
    {
        if !white_space(chars[i]) {
            return false;
        }
        i = i + 1;
    }
    true
}

/// Equality of two texts.
pub fn same_text(a: &str, b: &str) -> (r: bool)
    ensures
        r == (a@ == b@),
{
    let x = chars_of(a);
    let y = chars_of(b);
    if x.len() != y.len() {
        return false;
    }
    let mut i: usize = 0;
    while i < x.len()
        invariant
            x@ == a@,
            y@ == b@,
            x.len() == y.len(),
            i <= x.len(),
            forall|j: int| 0 <= j < i ==> x@[j] == y@[j],
        decreases x.len() - i,
    {
        if x[i] != y[i] {
            return false;
        }
        i = i + 1;
    }
    assert(x@ =~= y@);
    true
}

/// Lexicographic comparison: whether `a` comes strictly before `b`.
pub fn text_precedes(a: &str, b: &str) -> (r: bool)
    ensures
        r == precedes(a@, b@),
{
    let x = chars_of(a);
    let y = chars_of(b);
    let mut i: usize = 0;
    assert(a@.skip(0) =~= a@);
    assert(b@.skip(0) =~= b@);
    while i < x.len() && i < y.len() && x[i] == y[i]
        invariant
            x@ == a@,
            y@ == b@,
            i <= x.len(),
            i <= y.len(),
            precedes(a@, b@) == precedes(a@.skip(i as int), b@.skip(i as int)),
        decreases x.len() - i,
    {
        proof {
            let xs = a@.skip(i as int);
            let ys = b@.skip(i as int);
            assert(xs.drop_first() =~= a@.skip(i + 1));
            assert(ys.drop_first() =~= b@.skip(i + 1));
        }
        i = i + 1;
    }
    proof {
        let xs = a@.skip(i as int);
        let ys = b@.skip(i as int);
        if i < x.len() && i < y.len() {
            assert(xs[0] == x@[i as int]);
            assert(ys[0] == y@[i as int]);
        }
    }
    if i == x.len() {
        i < y.len()
    } else if i == y.len() {
        false
    } else {
        (x[i] as u32) < (y[i] as u32)
    }
}

pub proof fn lemma_precedes_irreflexive(a: Seq<char>)
    ensures
        !precedes(a, a),
    decreases a.len(),
{
    if a.len() > 0 {
        lemma_precedes_irreflexive(a.drop_first());
    }
}

pub proof fn lemma_precedes_transitive(a: Seq<char>, b: Seq<char>, c: Seq<char>)
    requires
        precedes(a, b),
        precedes(b, c),
    ensures
        precedes(a, c),
    decreases a.len(),
{
    if a.len() > 0 && b.len() > 0 && c.len() > 0 && a[0] == b[0] && b[0] == c[0] {
        lemma_precedes_transitive(a.drop_first(), b.drop_first(), c.drop_first());
    }
}

pub proof fn lemma_precedes_total(a: Seq<char>, b: Seq<char>)
    ensures
        a == b || precedes(a, b) || precedes(b, a),
    decreases a.len(),
{
    if a.len() > 0 && b.len() > 0 && a[0] == b[0] {
        lemma_precedes_total(a.drop_first(), b.drop_first());
        if a.drop_first() == b.drop_first() {
            assert(a =~= seq![a[0]] + a.drop_first());
            assert(b =~= seq![b[0]] + b.drop_first());
        }
    } else if a.len() == 0 && b.len() == 0 {
        assert(a =~= b);
    } else if a.len() > 0 && b.len() > 0 {
        vstd::utf8::char_u32_cast(a[0], a[0] as u32);
        vstd::utf8::char_u32_cast(b[0], b[0] as u32);
        assert((a[0] as u32) != (b[0] as u32));
    }
}

/// Inserts `item` into a strictly sorted vector of texts, keeping it strictly sorted
/// and adding nothing when an equal text is already there.
pub fn insert_sorted(list: &mut Vec<String>, item: String)
    requires
        strictly_sorted(texts(old(list)@)),
    ensures
        strictly_sorted(texts(final(list)@)),
        texts(final(list)@).to_set() == texts(old(list)@).to_set().insert(item@),
{
    let ghost before = texts(list@);
    let mut p: usize = 0;
    while p < list.len()
        invariant
            texts(list@) == before,
            p <= list.len(),
            forall|k: int| 0 <= k < p ==> precedes(#[trigger] before[k], item@),
        ensures
            p < list.len() ==> !precedes(before[p as int], item@),
            p <= list.len(),
            forall|k: int| 0 <= k < p ==> precedes(#[trigger] before[k], item@),
        decreases list.len() - p,
    {
        if !text_precedes(list[p].as_str(), item.as_str()) {
            break;
        }
        p = p + 1;
    }
    if p < list.len() && same_text(list[p].as_str(), item.as_str()) {
        proof {
            assert(before.to_set().insert(item@) =~= before.to_set()) by {
                assert(before[p as int] == item@);
            }
        }
        return;
    }
    proof {
        if p < list.len() {
            lemma_precedes_total(before[p as int], item@);
        }
    }
    list.insert(p, item);
    proof {
        let after = texts(list@);
        assert(after =~= before.insert(p as int, item@));
        assert forall|i: int, j: int| 0 <= i < j < after.len() implies precedes(
            #[trigger] after[i],
            #[trigger] after[j],
        ) by {
            if j < p {
            } else if j == p {
            } else if i <= p {
                if j - 1 > p {
                    lemma_precedes_transitive(item@, before[p as int], before[j - 1]);
                }
                if i < p {
                    lemma_precedes_transitive(after[i], item@, before[j - 1]);
                }
            } else {
            }
        }
        assert(after.to_set() =~= before.to_set().insert(item@)) by {
            assert forall|x: Seq<char>| after.to_set().contains(x) implies before.to_set().insert(
                x,
            ).contains(x) && before.to_set().insert(item@).contains(x) by {
                let k = choose|k: int| 0 <= k < after.len() && after[k] == x;
                if k < p {
                    assert(before[k] == x);
                } else if k > p {
                    assert(before[k - 1] == x);
                }
            }
            assert forall|x: Seq<char>| before.to_set().insert(item@).contains(x) implies after.to_set().contains(x) by {
                if x == item@ {
                    assert(after[p as int] == x);
                } else {
                    let k = choose|k: int| 0 <= k < before.len() && before[k] == x;
                    if k < p {
                        assert(after[k] == x);
                    } else {
                        assert(after[k + 1] == x);
                    }
                }
            }
        }
    }
}


pub open spec fn digit_char(d: nat) -> char {
    if d == 0 {
        '0'
    } else if d == 1 {
        '1'
    } else if d == 2 {
        '2'
    } else if d == 3 {
        '3'
    } else if d == 4 {
        '4'
    } else if d == 5 {
        '5'
    } else if d == 6 {
        '6'
    } else if d == 7 {
        '7'
    } else if d == 8 {
        '8'
    } else {
        '9'
    }
}

/// Decimal notation of a natural number, without leading zeros.
pub open spec fn decimal_text(n: nat) -> Seq<char>
    decreases n,
{
    if n < 10 {
        seq![digit_char(n)]
    } else {
        decimal_text(n / 10).push(digit_char(n % 10))
    }
}

fn digit_text(d: usize) -> (r: &'static str)
    requires
        d < 10,
    ensures
        r@ == seq![digit_char(d as nat)],
{
    match d {
        0 => {
            proof {
                reveal_strlit("0");
            }
            "0"
        },
        1 => {
            proof {
                reveal_strlit("1");
            }
            "1"
        },
        2 => {
            proof {
                reveal_strlit("2");
            }
            "2"
        },
        3 => {
            proof {
                reveal_strlit("3");
            }
            "3"
        },
        4 => {
            proof {
                reveal_strlit("4");
            }
            "4"
        },
        5 => {
            proof {
                reveal_strlit("5");
            }
            "5"
        },
        6 => {
            proof {
                reveal_strlit("6");
            }
            "6"
        },
        7 => {
            proof {
                reveal_strlit("7");
            }
            "7"
        },
        8 => {
            proof {
                reveal_strlit("8");
            }
            "8"
        },
        _ => {
            proof {
                reveal_strlit("9");
            }
            "9"
        },
    }
}

/// Decimal notation of `n` (what `n.to_string()` gives).
pub fn decimal_string(n: usize) -> (r: String)
    ensures
        r@ == decimal_text(n as nat),
    decreases n,
{
    if n < 10 {
        String::from_str(digit_text(n))
    } else {
        let mut text = decimal_string(n / 10);
        text.append(digit_text(n % 10));
        text
    }
}

} // verus!
