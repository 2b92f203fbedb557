//! Text helpers: decimal rendering, identifier text, ASCII case folding and the
//! lexicographic order of strings.

use vstd::prelude::*;

verus! {

/// The character of a decimal digit.
pub open spec fn digit_char(d: nat) -> char
    recommends
        d < 10,
{
    seq!['0', '1', '2', '3', '4', '5', '6', '7', '8', '9'][d as int]
}

/// Decimal rendering of a natural number, without leading zeros.
pub open spec fn dec_text(n: nat) -> Seq<char>
    decreases n,
{
    if n < 10 {
        seq![digit_char(n)]
    } else {
        dec_text(n / 10).push(digit_char(n % 10))
    }
}

/// The rendering `PREFIX-n` of the `n`-th identifier with a given prefix.
pub open spec fn id_text(prefix: Seq<char>, n: nat) -> Seq<char> {
    prefix + seq!['-'] + dec_text(n)
}

pub proof fn lemma_dec_text_len(n: nat)
    ensures
        dec_text(n).len() >= 1,
        n < 10 <==> dec_text(n).len() == 1,
    decreases n,
{
    if n >= 10 {
        lemma_dec_text_len(n / 10);
    }
}

proof fn lemma_digit_char_injective(a: nat, b: nat)
    requires
        a < 10,
        b < 10,
        digit_char(a) == digit_char(b),
    ensures
        a == b,
{
    let s = seq!['0', '1', '2', '3', '4', '5', '6', '7', '8', '9'];
    assert(s[0] != s[1] && s[0] != s[2]);
    if a != b {
        assert(s[a as int] != s[b as int]);
    }
}

/// Distinct numbers have distinct decimal renderings.
pub proof fn lemma_dec_text_injective(a: nat, b: nat)
    requires
        dec_text(a) == dec_text(b),
    ensures
        a == b,
    decreases a,
{
    lemma_dec_text_len(a);
    lemma_dec_text_len(b);
    if a < 10 {
        assert(b < 10);
        assert(dec_text(a)[0] == digit_char(a));
        assert(dec_text(b)[0] == digit_char(b));
        lemma_digit_char_injective(a, b);
    } else {
        let ta = dec_text(a);
        let tb = dec_text(b);
        assert(ta.last() == tb.last());
        lemma_digit_char_injective(a % 10, b % 10);
        assert(ta.drop_last() =~= dec_text(a / 10));
        assert(tb.drop_last() =~= dec_text(b / 10));
        lemma_dec_text_injective(a / 10, b / 10);
    }
}

/// Two identifiers with the same prefix are equal only for the same number.
pub proof fn lemma_id_text_injective(prefix: Seq<char>, a: nat, b: nat)
    requires
        id_text(prefix, a) == id_text(prefix, b),
    ensures
        a == b,
{
    let k = prefix.len() + 1;
    assert(id_text(prefix, a).skip(k as int) =~= dec_text(a));
    assert(id_text(prefix, b).skip(k as int) =~= dec_text(b));
    lemma_dec_text_injective(a, b);
}

/// Appends the digit `d` to `s`.
fn push_digit(s: &mut String, d: u64)
    requires
        d < 10,
    ensures
        final(s)@ == old(s)@.push(digit_char(d as nat)),
{
    match d {
        0 => {
            proof {
                reveal_strlit("0");
            }
            s.append("0");
        },
        1 => {
            proof {
                reveal_strlit("1");
            }
            s.append("1");
        },
        2 => {
            proof {
                reveal_strlit("2");
            }
            s.append("2");
        },
        3 => {
            proof {
                reveal_strlit("3");
            }
            s.append("3");
        },
        4 => {
            proof {
                reveal_strlit("4");
            }
            s.append("4");
        },
        5 => {
            proof {
                reveal_strlit("5");
            }
            s.append("5");
        },
        6 => {
            proof {
                reveal_strlit("6");
            }
            s.append("6");
        },
        7 => {
            proof {
                reveal_strlit("7");
            }
            s.append("7");
        },
        8 => {
            proof {
                reveal_strlit("8");
            }
            s.append("8");
        },
        _ => {
            proof {
                reveal_strlit("9");
            }
            s.append("9");
        },
    }
}

/// Appends `n` in decimal to `s`.
fn push_decimal(s: &mut String, n: u64)
    ensures
        final(s)@ == old(s)@ + dec_text(n as nat),
    decreases n,
{
    let ghost start = s@;
    if n >= 10 {
        push_decimal(s, n / 10);
    }
    push_digit(s, n % 10);
    proof {
        if n >= 10 {
            assert(s@ =~= start + dec_text((n / 10) as nat).push(digit_char((n % 10) as nat)));
        } else {
            assert(s@ =~= start + seq![digit_char(n as nat)]);
        }
    }
}

/// The text of the identifier `prefix-n`.
pub fn make_id(prefix: &str, n: u64) -> (r: String)
    ensures
        r@ == id_text(prefix@, n as nat),
{
    let mut s = prefix.to_owned();
    s.append("-");
    proof {
        reveal_strlit("-");
    }
    push_decimal(&mut s, n);
    s
}


// ─── lexicographic order ─────────────────────────────────────────────────────

/// Strict lexicographic order of strings, character by character (the order
/// of `str`: UTF-8 byte order and code-point order agree).
pub open spec fn text_lt(a: Seq<char>, b: Seq<char>) -> bool
    decreases a.len(),
{
    if a.len() == 0 {
        b.len() > 0
    } else if b.len() == 0 {
        false
    } else if a[0] != b[0] {
        (a[0] as int) < (b[0] as int)
    } else {
        text_lt(a.drop_first(), b.drop_first())
    }
}

/// `a` sorts no later than `b`.
pub open spec fn text_le(a: Seq<char>, b: Seq<char>) -> bool {
    !text_lt(b, a)
}

pub proof fn lemma_text_lt_irreflexive(a: Seq<char>)
    ensures
        !text_lt(a, a),
    decreases a.len(),
{
    if a.len() > 0 {
        lemma_text_lt_irreflexive(a.drop_first());
    }
}

pub proof fn lemma_text_lt_total(a: Seq<char>, b: Seq<char>)
    ensures
        a == b || text_lt(a, b) || text_lt(b, a),
    decreases a.len(),
{
    if a.len() > 0 && b.len() > 0 && a[0] == b[0] {
        lemma_text_lt_total(a.drop_first(), b.drop_first());
        if a.drop_first() == b.drop_first() {
            assert(a =~= seq![a[0]] + a.drop_first());
            assert(b =~= seq![b[0]] + b.drop_first());
        }
    } else if a.len() == 0 && b.len() == 0 {
        assert(a =~= b);
    }
}

pub proof fn lemma_text_lt_asymmetric(a: Seq<char>, b: Seq<char>)
    requires
        text_lt(a, b),
    ensures
        !text_lt(b, a),
    decreases a.len(),
{
    if a.len() > 0 && b.len() > 0 && a[0] == b[0] {
        lemma_text_lt_asymmetric(a.drop_first(), b.drop_first());
    }
}

pub proof fn lemma_text_lt_transitive(a: Seq<char>, b: Seq<char>, c: Seq<char>)
    requires
        text_lt(a, b),
        text_lt(b, c),
    ensures
        text_lt(a, c),
    decreases a.len(),
{
    if a.len() > 0 && b.len() > 0 && c.len() > 0 && a[0] == b[0] && b[0] == c[0] {
        lemma_text_lt_transitive(a.drop_first(), b.drop_first(), c.drop_first());
    }
}

/// `text_le` is a total preorder; with antisymmetry, a total order.
pub proof fn lemma_text_le_transitive(a: Seq<char>, b: Seq<char>, c: Seq<char>)
    requires
        text_le(a, b),
        text_le(b, c),
    ensures
        text_le(a, c),
{
    if text_lt(c, a) {
        lemma_text_lt_total(a, b);
        lemma_text_lt_total(b, c);
        if a == b {
        } else if text_lt(a, b) {
            if b == c {
            } else {
                lemma_text_lt_transitive(a, b, c);
                lemma_text_lt_asymmetric(a, c);
            }
        } else {
            lemma_text_lt_transitive(c, a, b);
        }
    }
}

/// Compares two strings held as characters: `a` sorts strictly before `b`.
pub fn text_less(a: &Vec<char>, b: &Vec<char>) -> (r: bool)
    ensures
        r == text_lt(a@, b@),
{
    let mut i: usize = 0;
    assert(a@.skip(0) =~= a@);
    assert(b@.skip(0) =~= b@);
    while i < a.len() && i < b.len()
        invariant
            i <= a.len(),
            i <= b.len(),
            text_lt(a@, b@) == text_lt(a@.skip(i as int), b@.skip(i as int)),
        decreases a.len() - i,
    {
        if a[i] != b[i] {
            return a[i] < b[i];
        }
        assert(a@.skip(i as int).drop_first() =~= a@.skip(i + 1));
        assert(b@.skip(i as int).drop_first() =~= b@.skip(i + 1));
        i = i + 1;
    }
    i < b.len()
}

// ─── ASCII case folding ──────────────────────────────────────────────────────

/// The code of a character after ASCII lower-casing.
pub open spec fn ascii_lower_code(c: char) -> u32 {
    if 65 <= (c as u32) && (c as u32) <= 90 {
        ((c as u32) + 32) as u32
    } else {
        c as u32
    }
}

/// The two strings are equal when ASCII letters are compared without case.
pub open spec fn eq_ignore_ascii_case(a: Seq<char>, b: Seq<char>) -> bool {
    &&& a.len() == b.len()
    &&& forall|i: int| 0 <= i < a.len() ==> ascii_lower_code(#[trigger] a[i]) == ascii_lower_code(b[i])
}

fn lower_code(c: char) -> (r: u32)
    ensures
        r == ascii_lower_code(c),
{
    let x = c as u32;
    if 65 <= x && x <= 90 {
        x + 32
    } else {
        x
    }
}

/// `str::eq_ignore_ascii_case`.
pub fn same_ignoring_ascii_case(a: &str, b: &str) -> (r: bool)
    ensures
        r == eq_ignore_ascii_case(a@, b@),
{
    let x = chars_of(a);
    let y = chars_of(b);
    if x.len() != y.len() {
        return false;
    }
    let mut i: usize = 0;
    while i < x.len()
        invariant
            x@ == a@,
            y@ == b@,
            x.len() == y.len(),
            i <= x.len(),
            forall|j: int| 0 <= j < i ==> ascii_lower_code(#[trigger] x@[j]) == ascii_lower_code(y@[j]),
        decreases x.len() - i,
    {
        if lower_code(x[i]) != lower_code(y[i]) {
            return false;
        }
        i = i + 1;
    }
    true
}

// ─── fixed-point quantities ──────────────────────────────────────────────────

/// The one to three decimals of a fraction `f` of thousandths, without
/// trailing zeros.
pub open spec fn frac_text(f: nat) -> Seq<char> {
    let d1 = f / 100;
    let d2 = (f / 10) % 10;
    let d3 = f % 10;
    if d3 != 0 {
        seq![digit_char(d1), digit_char(d2), digit_char(d3)]
    } else if d2 != 0 {
        seq![digit_char(d1), digit_char(d2)]
    } else {
        seq![digit_char(d1)]
    }
}

/// The decimal text of a quantity of `q` thousandths: an optional minus sign,
/// the whole units, and the decimals when there are any (as `f64`'s `Display`
/// writes such a value: `12`, `2.5`, `-0.125`).
pub open spec fn qty_text(q: int) -> Seq<char> {
    let m: nat = if q < 0 { (-q) as nat } else { q as nat };
    let sign = if q < 0 { seq!['-'] } else { Seq::<char>::empty() };
    let frac = if m % 1000 == 0 { Seq::<char>::empty() } else { seq!['.'] + frac_text(m % 1000) };
    sign + dec_text(m / 1000) + frac
}

proof fn lemma_digit_text(d: nat)
    requires
        d < 10,
    ensures
        dec_text(d) == seq![digit_char(d)],
{
}

/// Appends the text of the quantity `q` (thousandths of a unit) to `s`.
pub fn push_qty(s: &mut String, q: i64)
    ensures
        final(s)@ == old(s)@ + qty_text(q as int),
{
    proof {
        reveal_strlit("-");
        reveal_strlit(".");
    }
    let ghost start = s@;
    let m: u64 = if q < 0 { ((-(q + 1)) as u64) + 1 } else { q as u64 };
    assert(m as int == if q < 0 { -q } else { q as int });
    if q < 0 {
        s.append("-");
    }
    let ghost signed = s@;
    push_decimal(s, m / 1000);
    let f = m % 1000;
    if f != 0 {
        s.append(".");
        let d1 = f / 100;
        let d2 = (f / 10) % 10;
        let d3 = f % 10;
        proof {
            lemma_digit_text(d1 as nat);
            lemma_digit_text(d2 as nat);
            lemma_digit_text(d3 as nat);
        }
        push_decimal(s, d1);
        if d2 != 0 || d3 != 0 {
            push_decimal(s, d2);
        }
        if d3 != 0 {
            push_decimal(s, d3);
        }
    }
    assert(s@ =~= start + qty_text(q as int));
}

/// The characters of a string, in order.
pub fn chars_of(s: &str) -> (r: Vec<char>)
    ensures
        r@ == s@,
{
    let mut r: Vec<char> = Vec::new();
    for c in it: s.chars()
        invariant
            r@ == it.seq().take(it.index() as int),
    {
        r.push(c);
    }
    r
}

} // verus!
