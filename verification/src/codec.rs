//! The JSON codec for blocks.
//!
//! Blocks travel and persist as JSON text. The emitter and the parser are
//! both verified against specification functions, and parsing inverts
//! emission: every well-formed block is read back exactly. Strings are
//! framed by quotes and carried verbatim, so a value containing a quote
//! falls outside the codec's domain.

use crate::amount::{
    amount_chars, amount_units, amount_wf, dec_digits, dec_digits_fixed, digit_char, lemma_pow10_adds,
    lemma_pow10_increases, lemma_pow10_limit, lemma_pow10_pos, pow10, Amount,
};
use crate::amount::push_digits;
use crate::block::{Block, Timestamp};
use vstd::string::StrSliceExecFns;
use vstd::string::StringExecFns;
use crate::transaction::{LockOutput, UnlockInput};
use vstd::prelude::*;

verus! {

/// Whether a character is a decimal digit.
pub open spec fn is_digit(c: char) -> bool {
    48 <= c as u32 && c as u32 <= 57
}

/// The value of a digit character.
pub open spec fn digit_val(c: char) -> nat {
    if is_digit(c) {
        (c as u32 - 48) as nat
    } else {
        0
    }
}

/// Whether every character of `t` is a digit.
pub open spec fn all_digits(t: Seq<char>) -> bool {
    forall|i: int| 0 <= i < t.len() ==> is_digit(#[trigger] t[i])
}

/// The number written by a digit string, most significant first.
pub open spec fn digits_value(t: Seq<char>) -> nat
    decreases t.len(),
{
    if t.len() == 0 {
        0
    } else {
        digits_value(t.drop_last()) * 10 + digit_val(t.last())
    }
}

/// The digit characters are exactly the digits they stand for.
pub proof fn lemma_digit_char_val(d: nat)
    requires
        d < 10,
    ensures
        is_digit(digit_char(d)),
        digit_val(digit_char(d)) == d,
{
}

/// The decimal digits of a number are digits, and there is at least one.
pub proof fn lemma_dec_digits_all(n: nat)
    ensures
        all_digits(dec_digits(n)),
        dec_digits(n).len() >= 1,
    decreases n,
{
    if n < 10 {
        lemma_digit_char_val(n);
    } else {
        lemma_dec_digits_all(n / 10);
        lemma_digit_char_val(n % 10);
        let t = dec_digits(n);
        assert(t == dec_digits(n / 10).push(digit_char(n % 10)));
        assert forall|i: int| 0 <= i < t.len() implies is_digit(#[trigger] t[i]) by {
            if i < t.len() - 1 {
                assert(t[i] == dec_digits(n / 10)[i]);
            }
        }
    }
}

/// Reading the decimal digits of `n` gives back `n`.
pub proof fn lemma_dec_digits_value(n: nat)
    ensures
        digits_value(dec_digits(n)) == n,
    decreases n,
{
    if n < 10 {
        lemma_digit_char_val(n);
        let t = dec_digits(n);
        assert(t == seq![digit_char(n)]);
        assert(t.drop_last() =~= Seq::<char>::empty());
        assert(t.last() == digit_char(n));
        assert(digits_value(Seq::<char>::empty()) == 0);
        assert(digits_value(t) == digits_value(t.drop_last()) * 10 + digit_val(t.last()));
        assert(digits_value(t) == n);
    } else {
        lemma_dec_digits_value(n / 10);
        lemma_digit_char_val(n % 10);
        vstd::arithmetic::div_mod::lemma_fundamental_div_mod(n as int, 10);
        let t = dec_digits(n);
        assert(t == dec_digits(n / 10).push(digit_char(n % 10)));
        assert(t.drop_last() =~= dec_digits(n / 10));
        assert(t.last() == digit_char(n % 10));
    }
}

/// The zero-padded digits have exactly the asked width, and are digits.
pub proof fn lemma_dec_digits_fixed_all(n: nat, w: nat)
    ensures
        all_digits(dec_digits_fixed(n, w)),
        dec_digits_fixed(n, w).len() == w,
    decreases w,
{
    if w > 0 {
        lemma_dec_digits_fixed_all(n / 10, (w - 1) as nat);
        lemma_digit_char_val(n % 10);
        let t = dec_digits_fixed(n, w);
        assert(t == dec_digits_fixed(n / 10, (w - 1) as nat).push(digit_char(n % 10)));
        assert forall|i: int| 0 <= i < t.len() implies is_digit(#[trigger] t[i]) by {
            if i < t.len() - 1 {
                assert(t[i] == dec_digits_fixed(n / 10, (w - 1) as nat)[i]);
            }
        }
    }
}

/// Reading zero-padded digits gives back the number, when it fits the width.
pub proof fn lemma_dec_digits_fixed_value(n: nat, w: nat)
    requires
        n < pow10(w),
    ensures
        digits_value(dec_digits_fixed(n, w)) == n,
    decreases w,
{
    if w == 0 {
        assert(pow10(0) == 1);
    } else {
        assert(pow10(w) == 10 * pow10((w - 1) as nat));
        assert(n / 10 < pow10((w - 1) as nat)) by (nonlinear_arith)
            requires
                n < 10 * pow10((w - 1) as nat),
                pow10((w - 1) as nat) >= 1,
        ;
        lemma_pow10_pos((w - 1) as nat);
        lemma_dec_digits_fixed_value(n / 10, (w - 1) as nat);
        lemma_digit_char_val(n % 10);
        let t = dec_digits_fixed(n, w);
        assert(t == dec_digits_fixed(n / 10, (w - 1) as nat).push(digit_char(n % 10)));
        assert(t.drop_last() =~= dec_digits_fixed(n / 10, (w - 1) as nat));
        assert(t.last() == digit_char(n % 10));
    }
}

/// The end of the digit run that starts at `i`.
pub open spec fn digit_run_end(s: Seq<char>, i: int) -> int
    decreases s.len() - i,
{
    if 0 <= i < s.len() && is_digit(s[i]) {
        digit_run_end(s, i + 1)
    } else {
        i
    }
}

/// Where the digit run ends: exactly at the first non-digit.
pub proof fn lemma_digit_run_end(s: Seq<char>, i: int, j: int)
    requires
        0 <= i <= j <= s.len(),
        forall|p: int| i <= p < j ==> is_digit(#[trigger] s[p]),
        j == s.len() || !is_digit(s[j]),
    ensures
        digit_run_end(s, i) == j,
    decreases j - i,
{
    if i < j {
        lemma_digit_run_end(s, i + 1, j);
    }
}

/// Read a decimal number: the maximal digit run at `i`, if there is one and
/// its value fits an unsigned 64-bit machine word.
pub open spec fn spec_parse_u64(s: Seq<char>, i: int) -> Option<(u64, int)> {
    let j = digit_run_end(s, i);
    if j == i {
        None
    } else if digits_value(s.subrange(i, j)) > 0xffff_ffff_ffff_ffff {
        None
    } else {
        Some((digits_value(s.subrange(i, j)) as u64, j))
    }
}

/// Parsing inverts emission for numbers: the digits of `n`, followed by
/// anything that does not begin with a digit, read back as `n`.
pub proof fn lemma_parse_u64_exact(s: Seq<char>, i: int, n: u64, j: int)
    requires
        0 <= i <= j <= s.len(),
        j == i + dec_digits(n as nat).len(),
        s.subrange(i, j) == dec_digits(n as nat),
        j == s.len() || !is_digit(s[j]),
    ensures
        spec_parse_u64(s, i) == Some((n, j)),
{
    lemma_dec_digits_all(n as nat);
    lemma_dec_digits_value(n as nat);
    assert forall|p: int| i <= p < j implies is_digit(#[trigger] s[p]) by {
        assert(s[p] == s.subrange(i, j)[p - i]);
    }
    lemma_digit_run_end(s, i, j);
}

/// The escape of one character: quotes and backslashes gain a backslash,
/// everything else passes verbatim.
pub open spec fn esc1(c: char) -> Seq<char> {
    if c == '"' || c == '\\' {
        seq!['\\', c]
    } else {
        seq![c]
    }
}

/// The escaped form of a string value.
pub open spec fn escape_chars(t: Seq<char>) -> Seq<char>
    decreases t.len(),
{
    if t.len() == 0 {
        Seq::empty()
    } else {
        escape_chars(t.drop_last()) + esc1(t.last())
    }
}

/// Escaping peels off the front one character at a time.
pub proof fn lemma_escape_peel(t: Seq<char>)
    requires
        t.len() >= 1,
    ensures
        escape_chars(t) == esc1(t[0]) + escape_chars(t.drop_first()),
    decreases t.len(),
{
    if t.len() == 1 {
        assert(t.drop_last() =~= Seq::<char>::empty());
        assert(t.drop_first() =~= Seq::<char>::empty());
        assert(t.last() == t[0]);
        assert(escape_chars(t) =~= esc1(t[0]) + escape_chars(t.drop_first()));
    } else {
        lemma_escape_peel(t.drop_last());
        assert(t.drop_last()[0] == t[0]);
        assert(t.drop_last().drop_first() =~= t.drop_first().drop_last());
        assert(t.drop_first().last() == t.last());
        assert(escape_chars(t) =~= esc1(t[0]) + escape_chars(t.drop_first()));
    }
}

/// A string without quotes or backslashes escapes to itself.
pub open spec fn unescaped_str(t: Seq<char>) -> bool {
    forall|i: int| 0 <= i < t.len() ==> #[trigger] t[i] != '"' && t[i] != '\\'
}

pub proof fn lemma_escape_unescaped(t: Seq<char>)
    requires
        unescaped_str(t),
    ensures
        escape_chars(t) == t,
    decreases t.len(),
{
    if t.len() > 0 {
        assert(unescaped_str(t.drop_last())) by {
            assert(forall|i: int|
                0 <= i < t.drop_last().len() ==> #[trigger] t.drop_last()[i] == t[i]);
        }
        lemma_escape_unescaped(t.drop_last());
        assert(t.last() != '"' && t.last() != '\\');
        assert(escape_chars(t) =~= t);
    }
}

/// Read the inside of a quoted string starting at `i`: characters verbatim
/// up to the closing quote, with a backslash passing the next character
/// through.
#[verifier::opaque]
pub open spec fn scan_string(s: Seq<char>, i: int) -> Option<(Seq<char>, int)>
    decreases s.len() - i,
{
    if !(0 <= i < s.len()) {
        None
    } else if s[i] == '"' {
        Some((Seq::empty(), i + 1))
    } else if s[i] == '\\' {
        if i + 1 < s.len() {
            match scan_string(s, i + 2) {
                None => None,
                Some((t, j)) => Some((seq![s[i + 1]] + t, j)),
            }
        } else {
            None
        }
    } else {
        match scan_string(s, i + 1) {
            None => None,
            Some((t, j)) => Some((seq![s[i]] + t, j)),
        }
    }
}

/// Read a quoted string at `i`: its unescaped value and the position after
/// the closing quote.
pub open spec fn spec_parse_string(s: Seq<char>, i: int) -> Option<(Seq<char>, int)> {
    if 0 <= i < s.len() && s[i] == '"' {
        scan_string(s, i + 1)
    } else {
        None
    }
}

/// The scan inverts escaping: the escaped value followed by the closing
/// quote reads back as the value.
pub proof fn lemma_scan_exact(s: Seq<char>, i: int, x: Seq<char>, j: int)
    requires
        0 <= i,
        j == i + escape_chars(x).len() + 1,
        j <= s.len(),
        s.subrange(i, j) == escape_chars(x) + seq!['"'],
    ensures
        scan_string(s, i) == Some((x, j)),
    decreases x.len(),
{
    reveal(scan_string);
    assert forall|p: int| i <= p < j implies s[p] == (escape_chars(x) + seq!['"'])[p - i] by {
        assert(s[p] == s.subrange(i, j)[p - i]);
    }
    if x.len() == 0 {
        assert(escape_chars(x).len() == 0);
        assert(s[i] == '"');
        assert(x =~= Seq::<char>::empty());
    } else {
        lemma_escape_peel(x);
        let rest = x.drop_first();
        assert(escape_chars(x) + seq!['"'] =~= esc1(x[0]) + (escape_chars(rest) + seq!['"']));
        if x[0] == '"' || x[0] == '\\' {
            assert(s[i] == '\\');
            assert(s[i + 1] == x[0]);
            assert(s.subrange(i + 2, j) =~= escape_chars(rest) + seq!['"']) by {
                assert(forall|k: int|
                    0 <= k < j - i - 2 ==> #[trigger] s.subrange(i + 2, j)[k] == s[i + 2 + k]);
            }
            lemma_scan_exact(s, i + 2, rest, j);
            assert(seq![s[i + 1]] + rest =~= x);
        } else {
            assert(s[i] == x[0]);
            assert(s[i] != '"' && s[i] != '\\');
            assert(s.subrange(i + 1, j) =~= escape_chars(rest) + seq!['"']) by {
                assert(forall|k: int|
                    0 <= k < j - i - 1 ==> #[trigger] s.subrange(i + 1, j)[k] == s[i + 1 + k]);
            }
            lemma_scan_exact(s, i + 1, rest, j);
            assert(seq![s[i]] + rest =~= x);
        }
    }
}

/// Parsing inverts emission for strings: any value written between quotes
/// in escaped form reads back verbatim.
pub proof fn lemma_parse_string_exact(s: Seq<char>, i: int, x: Seq<char>, j: int)
    requires
        0 <= i <= s.len(),
        j == i + emit_string(x).len(),
        j <= s.len(),
        s.subrange(i, j) == emit_string(x),
    ensures
        spec_parse_string(s, i) == Some((x, j)),
{
    assert(emit_string(x) =~= seq!['"'] + (escape_chars(x) + seq!['"']));
    assert(s[i] == '"') by {
        assert(s[i] == s.subrange(i, j)[0]);
    }
    assert(s.subrange(i + 1, j) =~= escape_chars(x) + seq!['"']) by {
        assert(forall|k: int|
            0 <= k < j - i - 1 ==> #[trigger] s.subrange(i + 1, j)[k] == s.subrange(i, j)[k + 1]);
    }
    lemma_scan_exact(s, i + 1, x, j);
}

/// The first dot at or after `i`.
pub open spec fn dot_end(s: Seq<char>, i: int) -> int
    decreases s.len() - i,
{
    if 0 <= i < s.len() && s[i] != '.' {
        dot_end(s, i + 1)
    } else {
        i
    }
}

/// Where the dot scan ends: at the first dot.
pub proof fn lemma_dot_end(s: Seq<char>, i: int, j: int)
    requires
        0 <= i <= j <= s.len(),
        forall|p: int| i <= p < j ==> #[trigger] s[p] != '.',
        j == s.len() || s[j] == '.',
    ensures
        dot_end(s, i) == j,
    decreases j - i,
{
    if i < j {
        lemma_dot_end(s, i + 1, j);
    }
}

/// Read an amount from its decimal string: an optional sign, the whole
/// part, and an optional point with the fractional digits, whose count
/// becomes the scale. Values outside the supported range are rejected.
pub open spec fn spec_parse_amount(t: Seq<char>) -> Option<Amount> {
    let neg = t.len() > 0 && t[0] == '-';
    let u = if neg {
        t.drop_first()
    } else {
        t
    };
    let d = dot_end(u, 0);
    let ip = u.subrange(0, d);
    if !(1 <= d && all_digits(ip)) {
        None
    } else if d == u.len() {
        let v = digits_value(ip);
        if v > pow10(18) {
            None
        } else {
            Some(
                Amount {
                    mantissa: (if neg {
                        -(v as int)
                    } else {
                        v as int
                    }) as i128,
                    scale: 0,
                },
            )
        }
    } else {
        let fp = u.subrange(d + 1, u.len() as int);
        let w = u.len() - d - 1;
        if !(1 <= w <= 18 && all_digits(fp)) {
            None
        } else {
            let m = digits_value(ip) * pow10(w as nat) + digits_value(fp);
            if m > pow10((18 + w) as nat) {
                None
            } else {
                Some(
                    Amount {
                        mantissa: (if neg {
                            -(m as int)
                        } else {
                            m as int
                        }) as i128,
                        scale: w as u32,
                    },
                )
            }
        }
    }
}


/// Digits are neither quotes, backslashes, dots nor signs.
pub proof fn lemma_digits_text(t: Seq<char>)
    requires
        all_digits(t),
    ensures
        unescaped_str(t),
        forall|i: int| 0 <= i < t.len() ==> #[trigger] t[i] != '.',
        forall|i: int| 0 <= i < t.len() ==> #[trigger] t[i] != '-',
{
}

/// The decimal string of an amount needs no escaping.
pub proof fn lemma_amount_chars_unescaped(m: int, s: nat)
    ensures
        unescaped_str(amount_chars(m, s)),
{
    let a = vstd::math::abs(m) as nat;
    if s == 0 {
        lemma_dec_digits_all(a);
        lemma_digits_text(dec_digits(a));
    } else {
        lemma_dec_digits_all(a / (pow10(s) as nat));
        lemma_digits_text(dec_digits(a / (pow10(s) as nat)));
        lemma_dec_digits_fixed_all(a % (pow10(s) as nat), s);
        lemma_digits_text(dec_digits_fixed(a % (pow10(s) as nat), s));
    }
}

/// A product bounded after scaling is bounded before it.
proof fn lemma_le_cancel(x: int, b: int, p: int)
    requires
        p >= 1,
        0 <= x,
        0 <= b,
        x * p <= b * p,
    ensures
        x <= b,
{
    assert(x <= b) by (nonlinear_arith)
        requires
            p >= 1,
            x * p <= b * p,
    ;
}

/// Parsing inverts emission for amounts: the decimal string of a
/// well-formed amount reads back as that amount.
#[verifier::rlimit(100)]
#[verifier::spinoff_prover]
pub proof fn lemma_parse_amount_exact(a: Amount)
    requires
        amount_wf(a),
    ensures
        spec_parse_amount(amount_chars(a.mantissa as int, a.scale as nat)) == Some(a),
{
    let m = a.mantissa as int;
    let sc = a.scale as nat;
    let t = amount_chars(m, sc);
    let neg = m < 0;
    let av = vstd::math::abs(m) as nat;
    lemma_pow10_pos((18 - sc) as nat);
    lemma_pow10_pos(sc);
    crate::amount::lemma_mul_widens(m, pow10((18 - sc) as nat));
    lemma_pow10_adds((18 + sc) as nat, (18 - sc) as nat);
    assert(av <= pow10((18 + sc) as nat)) by {
        assert(av * pow10((18 - sc) as nat) <= pow10(36)) by (nonlinear_arith)
            requires
                av == vstd::math::abs(m),
                -pow10(36) <= m * pow10((18 - sc) as nat) <= pow10(36),
        ;
        lemma_pow10_pos((18 + sc) as nat);
        lemma_le_cancel(av as int, pow10((18 + sc) as nat), pow10((18 - sc) as nat));
    }
    if sc == 0 {
        lemma_dec_digits_all(av);
        lemma_digits_text(dec_digits(av));
        lemma_dec_digits_value(av);
        let body = dec_digits(av);
        if neg {
            assert(t == seq!['-'] + body);
            assert(t[0] == '-');
            assert(t.drop_first() =~= body);
        } else {
            assert(t =~= Seq::<char>::empty() + body);
            assert(t =~= body);
            assert(is_digit(t[0]));
        }
        let u = if neg { t.drop_first() } else { t };
        assert(u =~= body);
        lemma_dot_end(u, 0, u.len() as int);
        assert(u.subrange(0, u.len() as int) =~= body);
    } else {
        let p = pow10(sc) as nat;
        let q = av / p;
        let r = av % p;
        vstd::arithmetic::div_mod::lemma_fundamental_div_mod(av as int, p as int);
        lemma_dec_digits_all(q);
        lemma_digits_text(dec_digits(q));
        lemma_dec_digits_value(q);
        lemma_dec_digits_fixed_all(r, sc);
        lemma_digits_text(dec_digits_fixed(r, sc));
        assert(0 <= r < p) by (nonlinear_arith)
            requires
                r == av % p,
                p >= 1,
        ;
        lemma_dec_digits_fixed_value(r, sc);
        let body = dec_digits(q) + seq!['.'] + dec_digits_fixed(r, sc);
        assert(t == (if neg { seq!['-'] } else { Seq::<char>::empty() }) + body);
        let u = if neg { t.drop_first() } else { t };
        assert(u =~= body);
        let dlen = dec_digits(q).len() as int;
        assert forall|k: int| 0 <= k < dlen implies #[trigger] u[k] != '.' by {
            assert(u[k] == dec_digits(q)[k]);
        }
        assert(u[dlen] == '.');
        lemma_dot_end(u, 0, dlen);
        assert(u.subrange(0, dlen) =~= dec_digits(q));
        assert(u.subrange(dlen + 1, u.len() as int) =~= dec_digits_fixed(r, sc));
        assert(u.len() - dlen - 1 == sc);
        assert(digits_value(dec_digits(q)) * pow10(sc) + digits_value(dec_digits_fixed(r, sc))
            == av) by {
            assert(q * (p as int) + r == av) by (nonlinear_arith)
                requires
                    av == (p as int) * q + r,
            ;
        }
        if neg {
            assert(t[0] == '-');
        } else {
            assert(is_digit(t[0]));
        }
    }
}


/// The address and amount carried by one input or output, as plain values.
pub struct EntryView {
    pub address: Seq<char>,
    pub amount: Amount,
}

/// The data carried by a block, as plain values.
pub struct BlockView {
    pub index: u64,
    pub prev: Option<Seq<char>>,
    pub merkle: Seq<char>,
    pub created: Timestamp,
    pub inputs: Seq<EntryView>,
    pub outputs: Seq<EntryView>,
    pub signature: Seq<char>,
}

/// An entry is representable when its amount is well formed and not
/// negative.
pub open spec fn entry_view_wf(e: EntryView) -> bool {
    amount_wf(e.amount) && amount_units(e.amount) >= 0
}

pub open spec fn entries_view_wf(es: Seq<EntryView>) -> bool {
    forall|i: int| 0 <= i < es.len() ==> entry_view_wf(#[trigger] es[i])
}

/// A block is representable when its timestamp is well formed and its
/// entries are.
pub open spec fn block_view_wf(v: BlockView) -> bool {
    &&& v.created.nanos < 1000000000
    &&& entries_view_wf(v.inputs)
    &&& entries_view_wf(v.outputs)
}

pub open spec fn input_views(s: Seq<UnlockInput>) -> Seq<EntryView> {
    Seq::new(s.len(), |i: int| EntryView { address: s[i].address@, amount: s[i].amount })
}

pub open spec fn output_views(s: Seq<LockOutput>) -> Seq<EntryView> {
    Seq::new(s.len(), |i: int| EntryView { address: s[i].address@, amount: s[i].amount })
}

/// The data a block holds, as plain values.
pub open spec fn block_view(b: Block) -> BlockView {
    BlockView {
        index: b.index,
        prev: match b.header.previous_block_header_hash {
            Some(p) => Some(p@),
            None => None,
        },
        merkle: b.header.merkle_root_hash@,
        created: b.header.created_at,
        inputs: input_views(b.txns.inputs@),
        outputs: output_views(b.txns.outputs@),
        signature: b.txns.signature@,
    }
}

pub open spec fn lit_index() -> Seq<char> {
    seq!['{', '"', 'i', 'n', 'd', 'e', 'x', '"', ':']
}

pub open spec fn lit_header() -> Seq<char> {
    seq![',', '"', 'h', 'e', 'a', 'd', 'e', 'r', '"', ':', '{', '"', 'v', 'e', 'r', 's', 'i', 'o',
        'n', '"', ':', '"', 'V', '0', '1', '0', '"', ',', '"', 'p', 'r', 'e', 'v', 'i', 'o', 'u',
        's', '_', 'b', 'l', 'o', 'c', 'k', '_', 'h', 'e', 'a', 'd', 'e', 'r', '_', 'h', 'a', 's',
        'h', '"', ':']
}

pub open spec fn lit_merkle() -> Seq<char> {
    seq![',', '"', 'm', 'e', 'r', 'k', 'l', 'e', '_', 'r', 'o', 'o', 't', '_', 'h', 'a', 's', 'h',
        '"', ':']
}

pub open spec fn lit_created() -> Seq<char> {
    seq![',', '"', 'c', 'r', 'e', 'a', 't', 'e', 'd', '_', 'a', 't', '"', ':', '{', '"', 's', 'e',
        'c', 's', '_', 's', 'i', 'n', 'c', 'e', '_', 'e', 'p', 'o', 'c', 'h', '"', ':']
}

pub open spec fn lit_nanos() -> Seq<char> {
    seq![',', '"', 'n', 'a', 'n', 'o', 's', '_', 's', 'i', 'n', 'c', 'e', '_', 'e', 'p', 'o', 'c',
        'h', '"', ':']
}

pub open spec fn lit_txns() -> Seq<char> {
    seq!['}', '}', ',', '"', 't', 'x', 'n', 's', '"', ':', '{', '"', 'v', 'e', 'r', 's', 'i', 'o',
        'n', '"', ':', '"', 'V', '1', '"', ',', '"', 'i', 'n', 'p', 'u', 't', 's', '"', ':']
}

pub open spec fn lit_outputs() -> Seq<char> {
    seq![',', '"', 'o', 'u', 't', 'p', 'u', 't', 's', '"', ':']
}

pub open spec fn lit_signature() -> Seq<char> {
    seq![',', '"', 's', 'i', 'g', 'n', 'a', 't', 'u', 'r', 'e', '"', ':']
}

pub open spec fn lit_end() -> Seq<char> {
    seq!['}', '}']
}

pub open spec fn lit_null() -> Seq<char> {
    seq!['n', 'u', 'l', 'l']
}

pub open spec fn lit_address() -> Seq<char> {
    seq!['{', '"', 'a', 'd', 'd', 'r', 'e', 's', 's', '"', ':']
}

pub open spec fn lit_amount() -> Seq<char> {
    seq![',', '"', 'a', 'm', 'o', 'u', 'n', 't', '"', ':']
}

/// A quoted string: the value between quotes, in escaped form.
pub open spec fn emit_string(x: Seq<char>) -> Seq<char> {
    seq!['"'] + escape_chars(x) + seq!['"']
}

/// A quoted amount: its decimal string between quotes.
pub open spec fn emit_amount(a: Amount) -> Seq<char> {
    seq!['"'] + amount_chars(a.mantissa as int, a.scale as nat) + seq!['"']
}

/// One input or output object.
pub open spec fn emit_entry(e: EntryView) -> Seq<char> {
    lit_address() + emit_string(e.address) + lit_amount() + emit_amount(e.amount) + seq!['}']
}

/// The entries after the first: each preceded by a comma.
pub open spec fn tail_emit(ts: Seq<EntryView>) -> Seq<char>
    decreases ts.len(),
{
    if ts.len() == 0 {
        Seq::empty()
    } else {
        seq![','] + emit_entry(ts[0]) + tail_emit(ts.drop_first())
    }
}

/// A bracketed entry list, comma-separated.
pub open spec fn emit_entries(es: Seq<EntryView>) -> Seq<char> {
    if es.len() == 0 {
        seq!['['] + seq![']']
    } else {
        seq!['['] + emit_entry(es[0]) + tail_emit(es.drop_first()) + seq![']']
    }
}

/// The parent hash field: `null` on genesis, else a quoted string.
pub open spec fn emit_prev(p: Option<Seq<char>>) -> Seq<char> {
    match p {
        None => lit_null(),
        Some(x) => emit_string(x),
    }
}

pub open spec fn emit_block_tail3(v: BlockView) -> Seq<char> {
    lit_signature() + (emit_string(v.signature) + lit_end())
}

pub open spec fn emit_block_tail2(v: BlockView) -> Seq<char> {
    lit_outputs() + (emit_entries(v.outputs) + emit_block_tail3(v))
}

pub open spec fn emit_block_tail(v: BlockView) -> Seq<char> {
    lit_txns() + (emit_entries(v.inputs) + emit_block_tail2(v))
}

pub open spec fn emit_block_mid3(v: BlockView) -> Seq<char> {
    lit_created() + (dec_digits(v.created.secs as nat) + (lit_nanos() + (dec_digits(
        v.created.nanos as nat,
    ) + emit_block_tail(v))))
}

pub open spec fn emit_block_mid2(v: BlockView) -> Seq<char> {
    lit_merkle() + (emit_string(v.merkle) + emit_block_mid3(v))
}

pub open spec fn emit_block_mid(v: BlockView) -> Seq<char> {
    lit_header() + (emit_prev(v.prev) + emit_block_mid2(v))
}

/// The whole JSON text of a block.
#[verifier::opaque]
pub open spec fn spec_emit_block(v: BlockView) -> Seq<char> {
    lit_index() + (dec_digits(v.index as nat) + emit_block_mid(v))
}

/// Match a fixed piece of text at `i`.
pub open spec fn expect(s: Seq<char>, i: int, lit: Seq<char>) -> Option<int> {
    if 0 <= i && i + lit.len() <= s.len() && s.subrange(i, i + lit.len()) == lit {
        Some(i + lit.len())
    } else {
        None
    }
}

/// Read a quoted amount.
pub open spec fn spec_parse_amount_field(s: Seq<char>, i: int) -> Option<(Amount, int)> {
    match spec_parse_string(s, i) {
        None => None,
        Some((t, j)) => match spec_parse_amount(t) {
            None => None,
            Some(a) => Some((a, j)),
        },
    }
}

pub open spec fn spec_parse_entry_close(s: Seq<char>, i: int, addr: Seq<char>, a: Amount) -> Option<
    (EntryView, int),
> {
    match expect(s, i, seq!['}']) {
        None => None,
        Some(i5) => Some((EntryView { address: addr, amount: a }, i5)),
    }
}

pub open spec fn spec_parse_entry_tail(s: Seq<char>, i: int, addr: Seq<char>) -> Option<
    (EntryView, int),
> {
    match expect(s, i, lit_amount()) {
        None => None,
        Some(i3) => match spec_parse_amount_field(s, i3) {
            None => None,
            Some((a, i4)) => if amount_units(a) < 0 {
                None
            } else {
                spec_parse_entry_close(s, i4, addr, a)
            },
        },
    }
}

/// Read one input or output object.
pub open spec fn spec_parse_entry(s: Seq<char>, i: int) -> Option<(EntryView, int)> {
    match expect(s, i, lit_address()) {
        None => None,
        Some(i1) => match spec_parse_string(s, i1) {
            None => None,
            Some((addr, i2)) => spec_parse_entry_tail(s, i2, addr),
        },
    }
}

/// Read the entries after the first, up to the closing bracket.
pub open spec fn spec_parse_entries_rest(s: Seq<char>, i: int, acc: Seq<EntryView>) -> Option<
    (Seq<EntryView>, int),
>
    decreases s.len() - i,
{
    if !(0 <= i < s.len()) {
        None
    } else if s[i] == ']' {
        Some((acc, i + 1))
    } else if s[i] == ',' {
        match spec_parse_entry(s, i + 1) {
            None => None,
            Some((e, j)) => if i + 1 < j <= s.len() {
                spec_parse_entries_rest(s, j, acc.push(e))
            } else {
                None
            },
        }
    } else {
        None
    }
}

/// Read a bracketed entry list.
pub open spec fn spec_parse_entries(s: Seq<char>, i: int) -> Option<(Seq<EntryView>, int)> {
    match expect(s, i, seq!['[']) {
        None => None,
        Some(i1) => if 0 <= i1 < s.len() && s[i1] == ']' {
            Some((Seq::empty(), i1 + 1))
        } else {
            match spec_parse_entry(s, i1) {
                None => None,
                Some((e, j)) => if i1 < j <= s.len() {
                    spec_parse_entries_rest(s, j, seq![e])
                } else {
                    None
                },
            }
        },
    }
}

/// Read the parent hash field: `null` or a quoted string.
pub open spec fn spec_parse_prev(s: Seq<char>, i: int) -> Option<(Option<Seq<char>>, int)> {
    if 0 <= i < s.len() && s[i] == 'n' {
        match expect(s, i, lit_null()) {
            None => None,
            Some(j) => Some((None, j)),
        }
    } else {
        match spec_parse_string(s, i) {
            None => None,
            Some((x, j)) => Some((Some(x), j)),
        }
    }
}

/// Read the creation time: seconds, then the nanosecond field, which must
/// be below a billion.
pub open spec fn spec_parse_created(s: Seq<char>, i: int) -> Option<((u64, u32), int)> {
    match spec_parse_u64(s, i) {
        None => None,
        Some((secs, j1)) => match expect(s, j1, lit_nanos()) {
            None => None,
            Some(j2) => match spec_parse_u64(s, j2) {
                None => None,
                Some((nv, j3)) => if nv < 1000000000 {
                    Some(((secs, nv as u32), j3))
                } else {
                    None
                },
            },
        },
    }
}

pub open spec fn spec_parse_block_tail3(
    s: Seq<char>,
    i: int,
    index: u64,
    prev: Option<Seq<char>>,
    merkle: Seq<char>,
    secs: u64,
    nanos: u32,
    ins: Seq<EntryView>,
    outs: Seq<EntryView>,
) -> Option<BlockView> {
    match expect(s, i, lit_signature()) {
        None => None,
        Some(i1) => match spec_parse_string(s, i1) {
            None => None,
            Some((sig, i2)) => match expect(s, i2, lit_end()) {
                None => None,
                Some(i3) => if i3 == s.len() {
                    Some(
                        BlockView {
                            index,
                            prev,
                            merkle,
                            created: Timestamp { secs, nanos },
                            inputs: ins,
                            outputs: outs,
                            signature: sig,
                        },
                    )
                } else {
                    None
                },
            },
        },
    }
}

pub open spec fn spec_parse_block_tail2(
    s: Seq<char>,
    i: int,
    index: u64,
    prev: Option<Seq<char>>,
    merkle: Seq<char>,
    secs: u64,
    nanos: u32,
    ins: Seq<EntryView>,
) -> Option<BlockView> {
    match expect(s, i, lit_outputs()) {
        None => None,
        Some(i1) => match spec_parse_entries(s, i1) {
            None => None,
            Some((outs, i2)) => spec_parse_block_tail3(
                s,
                i2,
                index,
                prev,
                merkle,
                secs,
                nanos,
                ins,
                outs,
            ),
        },
    }
}

pub open spec fn spec_parse_block_tail(
    s: Seq<char>,
    i: int,
    index: u64,
    prev: Option<Seq<char>>,
    merkle: Seq<char>,
    secs: u64,
    nanos: u32,
) -> Option<BlockView> {
    match expect(s, i, lit_txns()) {
        None => None,
        Some(i1) => match spec_parse_entries(s, i1) {
            None => None,
            Some((ins, i2)) => spec_parse_block_tail2(
                s,
                i2,
                index,
                prev,
                merkle,
                secs,
                nanos,
                ins,
            ),
        },
    }
}

pub open spec fn spec_parse_block_mid3(
    s: Seq<char>,
    i: int,
    index: u64,
    prev: Option<Seq<char>>,
    merkle: Seq<char>,
) -> Option<BlockView> {
    match expect(s, i, lit_created()) {
        None => None,
        Some(i1) => match spec_parse_created(s, i1) {
            None => None,
            Some((created, i2)) => spec_parse_block_tail(
                s,
                i2,
                index,
                prev,
                merkle,
                created.0,
                created.1,
            ),
        },
    }
}

pub open spec fn spec_parse_block_mid2(
    s: Seq<char>,
    i: int,
    index: u64,
    prev: Option<Seq<char>>,
) -> Option<BlockView> {
    match expect(s, i, lit_merkle()) {
        None => None,
        Some(i1) => match spec_parse_string(s, i1) {
            None => None,
            Some((merkle, i2)) => spec_parse_block_mid3(s, i2, index, prev, merkle),
        },
    }
}

pub open spec fn spec_parse_block_mid(s: Seq<char>, i: int, index: u64) -> Option<BlockView> {
    match expect(s, i, lit_header()) {
        None => None,
        Some(i1) => match spec_parse_prev(s, i1) {
            None => None,
            Some((prev, i2)) => spec_parse_block_mid2(s, i2, index, prev),
        },
    }
}

/// Read a whole block from its JSON text; nothing may follow it.
#[verifier::opaque]
pub open spec fn spec_parse_block(s: Seq<char>) -> Option<BlockView> {
    match expect(s, 0, lit_index()) {
        None => None,
        Some(i1) => match spec_parse_u64(s, i1) {
            None => None,
            Some((index, i2)) => spec_parse_block_mid(s, i2, index),
        },
    }
}


/// A segment of `s` that is a concatenation splits into its two parts.
pub proof fn lemma_seg_split(s: Seq<char>, i: int, a: Seq<char>, b: Seq<char>)
    requires
        0 <= i,
        i + a.len() + b.len() <= s.len(),
        s.subrange(i, i + a.len() + b.len()) == a + b,
    ensures
        s.subrange(i, i + a.len()) == a,
        s.subrange(i + a.len(), i + a.len() + b.len()) == b,
{
    assert forall|k: int| i <= k < i + a.len() + b.len() implies s[k] == (a + b)[k - i] by {
        assert(s[k] == s.subrange(i, i + a.len() + b.len())[k - i]);
    }
    assert(s.subrange(i, i + a.len()) =~= a);
    assert(s.subrange(i + a.len(), i + a.len() + b.len()) =~= b);
}

/// Appending one more entry to the comma-separated tail appends its text.
pub proof fn lemma_tail_emit_push(ts: Seq<EntryView>, e: EntryView)
    ensures
        tail_emit(ts.push(e)) == tail_emit(ts) + seq![','] + emit_entry(e),
    decreases ts.len(),
{
    if ts.len() == 0 {
        assert(ts.push(e)[0] == e);
        assert(ts.push(e).drop_first() =~= Seq::<EntryView>::empty());
        assert(tail_emit(ts.push(e).drop_first()) == tail_emit(Seq::<EntryView>::empty()));
        assert(tail_emit(Seq::<EntryView>::empty()) == Seq::<char>::empty());
        assert(tail_emit(ts.push(e)) == seq![','] + emit_entry(e) + tail_emit(
            ts.push(e).drop_first(),
        ));
        assert(tail_emit(ts.push(e)) =~= tail_emit(ts) + seq![','] + emit_entry(e));
    } else {
        assert(ts.push(e)[0] == ts[0]);
        assert(ts.push(e).drop_first() =~= ts.drop_first().push(e));
        lemma_tail_emit_push(ts.drop_first(), e);
        assert(tail_emit(ts.push(e)) =~= tail_emit(ts) + seq![','] + emit_entry(e));
    }
}

/// Parsing inverts emission for a single entry.
pub proof fn lemma_parse_entry_exact(s: Seq<char>, i: int, e: EntryView, j: int)
    requires
        entry_view_wf(e),
        0 <= i <= j <= s.len(),
        j == i + emit_entry(e).len(),
        s.subrange(i, j) == emit_entry(e),
    ensures
        spec_parse_entry(s, i) == Some((e, j)),
{
    let ac = amount_chars(e.amount.mantissa as int, e.amount.scale as nat);
    let p1 = emit_string(e.address);
    let p2 = emit_amount(e.amount);
    assert(emit_entry(e) =~= lit_address() + (p1 + (lit_amount() + (p2 + seq!['}']))));
    let i1 = i + lit_address().len();
    let i2 = i1 + p1.len();
    let i3 = i2 + lit_amount().len();
    let i4 = i3 + p2.len();
    lemma_seg_split(s, i, lit_address(), p1 + (lit_amount() + (p2 + seq!['}'])));
    lemma_seg_split(s, i1, p1, lit_amount() + (p2 + seq!['}']));
    lemma_seg_split(s, i2, lit_amount(), p2 + seq!['}']);
    lemma_seg_split(s, i3, p2, seq!['}']);
    assert(expect(s, i, lit_address()) == Some(i1));
    lemma_parse_string_exact(s, i1, e.address, i2);
    assert(expect(s, i2, lit_amount()) == Some(i3));
    lemma_amount_chars_unescaped(e.amount.mantissa as int, e.amount.scale as nat);
    lemma_escape_unescaped(ac);
    assert(p2 == emit_string(ac));
    lemma_parse_string_exact(s, i3, ac, i4);
    lemma_parse_amount_exact(e.amount);
    assert(expect(s, i4, seq!['}']) == Some(j));
    assert((EntryView { address: e.address, amount: e.amount }) == e);
}

/// Parsing inverts emission for the tail of an entry list.
#[verifier::rlimit(60)]
#[verifier::spinoff_prover]
pub proof fn lemma_parse_entries_rest_exact(
    s: Seq<char>,
    i: int,
    acc: Seq<EntryView>,
    ts: Seq<EntryView>,
    j: int,
)
    requires
        entries_view_wf(ts),
        0 <= i,
        j == i + tail_emit(ts).len() + 1,
        j <= s.len(),
        s.subrange(i, j) == tail_emit(ts) + seq![']'],
    ensures
        spec_parse_entries_rest(s, i, acc) == Some((acc + ts, j)),
    decreases ts.len(),
{
    if ts.len() == 0 {
        assert(s[i] == (tail_emit(ts) + seq![']'])[0]) by {
            assert(s[i] == s.subrange(i, j)[0]);
        }
        assert(s[i] == ']');
        assert(acc + ts =~= acc);
    } else {
        let e0 = ts[0];
        let rest = ts.drop_first();
        assert(entry_view_wf(e0));
        assert(entries_view_wf(rest)) by {
            assert(forall|k: int| 0 <= k < rest.len() ==> #[trigger] rest[k] == ts[k + 1]);
        }
        assert(tail_emit(ts) + seq![']'] =~= seq![','] + (emit_entry(e0) + (tail_emit(rest)
            + seq![']'])));
        let i1 = i + 1;
        let p = i1 + emit_entry(e0).len();
        lemma_seg_split(s, i, seq![','], emit_entry(e0) + (tail_emit(rest) + seq![']']));
        lemma_seg_split(s, i1, emit_entry(e0), tail_emit(rest) + seq![']']);
        assert(s[i] == ',') by {
            assert(s[i] == s.subrange(i, i + 1)[0]);
        }
        lemma_parse_entry_exact(s, i1, e0, p);
        lemma_parse_entries_rest_exact(s, p, acc.push(e0), rest, j);
        assert(acc.push(e0) + rest =~= acc + ts);
    }
}

/// Parsing inverts emission for an entry list.
pub proof fn lemma_parse_entries_exact(s: Seq<char>, i: int, es: Seq<EntryView>, j: int)
    requires
        entries_view_wf(es),
        0 <= i,
        j == i + emit_entries(es).len(),
        j <= s.len(),
        s.subrange(i, j) == emit_entries(es),
    ensures
        spec_parse_entries(s, i) == Some((es, j)),
{
    if es.len() == 0 {
        assert(emit_entries(es) =~= seq!['['] + seq![']']);
        lemma_seg_split(s, i, seq!['['], seq![']']);
        assert(expect(s, i, seq!['[']) == Some(i + 1));
        assert(s[i + 1] == ']') by {
            assert(s[i + 1] == s.subrange(i + 1, i + 2)[0]);
        }
        assert(Seq::<EntryView>::empty() =~= es);
    } else {
        let e0 = es[0];
        let rest = es.drop_first();
        assert(entry_view_wf(e0));
        assert(entries_view_wf(rest)) by {
            assert(forall|k: int| 0 <= k < rest.len() ==> #[trigger] rest[k] == es[k + 1]);
        }
        assert(emit_entries(es) =~= seq!['['] + (emit_entry(e0) + (tail_emit(rest) + seq![']'])));
        let i1 = i + 1;
        let p = i1 + emit_entry(e0).len();
        lemma_seg_split(s, i, seq!['['], emit_entry(e0) + (tail_emit(rest) + seq![']']));
        lemma_seg_split(s, i1, emit_entry(e0), tail_emit(rest) + seq![']']);
        assert(expect(s, i, seq!['[']) == Some(i1));
        assert(s[i1] == '{') by {
            assert(s[i1] == s.subrange(i1, p)[0]);
            assert(emit_entry(e0)[0] == (lit_address() + emit_string(e0.address))[0]);
        }
        lemma_parse_entry_exact(s, i1, e0, p);
        lemma_parse_entries_rest_exact(s, p, seq![e0], rest, j);
        assert(seq![e0] + rest =~= es);
    }
}

#[verifier::rlimit(60)]
#[verifier::spinoff_prover]
pub proof fn lemma_parse_block_tail3_exact(s: Seq<char>, i: int, v: BlockView)
    requires
        block_view_wf(v),
        0 <= i,
        s.len() == i + emit_block_tail3(v).len(),
        s.subrange(i, s.len() as int) == emit_block_tail3(v),
    ensures
        spec_parse_block_tail3(
            s,
            i,
            v.index,
            v.prev,
            v.merkle,
            v.created.secs,
            v.created.nanos,
            v.inputs,
            v.outputs,
        ) == Some(v),
{
    let p1 = emit_string(v.signature);
    let i1 = i + lit_signature().len();
    let i2 = i1 + p1.len();
    lemma_seg_split(s, i, lit_signature(), p1 + lit_end());
    lemma_seg_split(s, i1, p1, lit_end());
    assert(expect(s, i, lit_signature()) == Some(i1));
    lemma_parse_string_exact(s, i1, v.signature, i2);
    assert(expect(s, i2, lit_end()) == Some(i2 + 2));
    assert(i2 + 2 == s.len());
    assert((Timestamp { secs: v.created.secs, nanos: v.created.nanos }) == v.created);
}

#[verifier::rlimit(60)]
#[verifier::spinoff_prover]
pub proof fn lemma_parse_block_tail2_exact(s: Seq<char>, i: int, v: BlockView)
    requires
        block_view_wf(v),
        0 <= i,
        s.len() == i + emit_block_tail2(v).len(),
        s.subrange(i, s.len() as int) == emit_block_tail2(v),
    ensures
        spec_parse_block_tail2(
            s,
            i,
            v.index,
            v.prev,
            v.merkle,
            v.created.secs,
            v.created.nanos,
            v.inputs,
        ) == Some(v),
{
    let p1 = emit_entries(v.outputs);
    let i1 = i + lit_outputs().len();
    let i2 = i1 + p1.len();
    lemma_seg_split(s, i, lit_outputs(), p1 + emit_block_tail3(v));
    lemma_seg_split(s, i1, p1, emit_block_tail3(v));
    assert(expect(s, i, lit_outputs()) == Some(i1));
    lemma_parse_entries_exact(s, i1, v.outputs, i2);
    lemma_parse_block_tail3_exact(s, i2, v);
}

#[verifier::rlimit(60)]
#[verifier::spinoff_prover]
pub proof fn lemma_parse_block_tail_exact(s: Seq<char>, i: int, v: BlockView)
    requires
        block_view_wf(v),
        0 <= i,
        s.len() == i + emit_block_tail(v).len(),
        s.subrange(i, s.len() as int) == emit_block_tail(v),
    ensures
        spec_parse_block_tail(
            s,
            i,
            v.index,
            v.prev,
            v.merkle,
            v.created.secs,
            v.created.nanos,
        ) == Some(v),
{
    let p1 = emit_entries(v.inputs);
    let i1 = i + lit_txns().len();
    let i2 = i1 + p1.len();
    lemma_seg_split(s, i, lit_txns(), p1 + emit_block_tail2(v));
    lemma_seg_split(s, i1, p1, emit_block_tail2(v));
    assert(expect(s, i, lit_txns()) == Some(i1));
    lemma_parse_entries_exact(s, i1, v.inputs, i2);
    lemma_parse_block_tail2_exact(s, i2, v);
}

#[verifier::rlimit(60)]
#[verifier::spinoff_prover]
pub proof fn lemma_parse_block_mid3_exact(s: Seq<char>, i: int, v: BlockView)
    requires
        block_view_wf(v),
        0 <= i,
        s.len() == i + emit_block_mid3(v).len(),
        s.subrange(i, s.len() as int) == emit_block_mid3(v),
    ensures
        spec_parse_block_mid3(s, i, v.index, v.prev, v.merkle) == Some(v),
{
    let d1 = dec_digits(v.created.secs as nat);
    let d2 = dec_digits(v.created.nanos as nat);
    let i1 = i + lit_created().len();
    let i2 = i1 + d1.len();
    let i3 = i2 + lit_nanos().len();
    let i4 = i3 + d2.len();
    lemma_seg_split(s, i, lit_created(), d1 + (lit_nanos() + (d2 + emit_block_tail(v))));
    lemma_seg_split(s, i1, d1, lit_nanos() + (d2 + emit_block_tail(v)));
    lemma_seg_split(s, i2, lit_nanos(), d2 + emit_block_tail(v));
    lemma_seg_split(s, i3, d2, emit_block_tail(v));
    assert(expect(s, i, lit_created()) == Some(i1));
    assert(s[i2] == ',') by {
        assert(s[i2] == s.subrange(i2, i3)[0]);
    }
    lemma_parse_u64_exact(s, i1, v.created.secs, i2);
    assert(expect(s, i2, lit_nanos()) == Some(i3));
    assert(s[i4] == '}') by {
        assert(s[i4] == s.subrange(i4, s.len() as int)[0]);
        assert(emit_block_tail(v)[0] == (lit_txns() + emit_entries(v.inputs))[0]);
    }
    lemma_parse_u64_exact(s, i3, v.created.nanos as u64, i4);
    assert((v.created.nanos as u64) < 1000000000);
    assert((v.created.nanos as u64) as u32 == v.created.nanos);
    lemma_parse_block_tail_exact(s, i4, v);
}

#[verifier::rlimit(60)]
#[verifier::spinoff_prover]
pub proof fn lemma_parse_block_mid2_exact(s: Seq<char>, i: int, v: BlockView)
    requires
        block_view_wf(v),
        0 <= i,
        s.len() == i + emit_block_mid2(v).len(),
        s.subrange(i, s.len() as int) == emit_block_mid2(v),
    ensures
        spec_parse_block_mid2(s, i, v.index, v.prev) == Some(v),
{
    let p1 = emit_string(v.merkle);
    let i1 = i + lit_merkle().len();
    let i2 = i1 + p1.len();
    lemma_seg_split(s, i, lit_merkle(), p1 + emit_block_mid3(v));
    lemma_seg_split(s, i1, p1, emit_block_mid3(v));
    assert(expect(s, i, lit_merkle()) == Some(i1));
    lemma_parse_string_exact(s, i1, v.merkle, i2);
    lemma_parse_block_mid3_exact(s, i2, v);
}

#[verifier::rlimit(100)]
#[verifier::spinoff_prover]
pub proof fn lemma_parse_block_mid_exact(s: Seq<char>, i: int, v: BlockView)
    requires
        block_view_wf(v),
        0 <= i,
        s.len() == i + emit_block_mid(v).len(),
        s.subrange(i, s.len() as int) == emit_block_mid(v),
    ensures
        spec_parse_block_mid(s, i, v.index) == Some(v),
{
    let p1 = emit_prev(v.prev);
    let i1 = i + lit_header().len();
    let i2 = i1 + p1.len();
    lemma_seg_split(s, i, lit_header(), p1 + emit_block_mid2(v));
    lemma_seg_split(s, i1, p1, emit_block_mid2(v));
    assert(expect(s, i, lit_header()) == Some(i1));
    match v.prev {
        None => {
            assert(s[i1] == 'n') by {
                assert(s[i1] == s.subrange(i1, i2)[0]);
            }
            assert(expect(s, i1, lit_null()) == Some(i2));
        },
        Some(x) => {
            assert(s[i1] == '"') by {
                assert(s[i1] == s.subrange(i1, i2)[0]);
            }
            lemma_parse_string_exact(s, i1, x, i2);
        },
    }
    lemma_parse_block_mid2_exact(s, i2, v);
}

/// Parsing inverts emission: the JSON text of a representable block reads
/// back as exactly that block.
/// The opening segments of a block's text: the index literal, the index
/// digits, and the rest.
#[verifier::rlimit(100)]
#[verifier::spinoff_prover]
proof fn lemma_block_top_segs(v: BlockView)
    ensures
        spec_emit_block(v).subrange(0, lit_index().len() as int) == lit_index(),
        spec_emit_block(v).subrange(
            lit_index().len() as int,
            (lit_index().len() + dec_digits(v.index as nat).len()) as int,
        ) == dec_digits(v.index as nat),
        spec_emit_block(v).subrange(
            (lit_index().len() + dec_digits(v.index as nat).len()) as int,
            spec_emit_block(v).len() as int,
        ) == emit_block_mid(v),
        spec_emit_block(v).len() == lit_index().len() + dec_digits(v.index as nat).len()
            + emit_block_mid(v).len(),
        spec_emit_block(v)[(lit_index().len() + dec_digits(v.index as nat).len()) as int] == ',',
{
    reveal(spec_emit_block);
    let s = spec_emit_block(v);
    let d1 = dec_digits(v.index as nat);
    let i1: int = lit_index().len() as int;
    let i2: int = i1 + d1.len();
    assert(s.subrange(0, s.len() as int) =~= s);
    lemma_seg_split(s, 0, lit_index(), d1 + emit_block_mid(v));
    lemma_seg_split(s, i1, d1, emit_block_mid(v));
    assert(s[i2] == ',') by {
        assert(s[i2] == s.subrange(i2, s.len() as int)[0]);
        assert(emit_block_mid(v)[0] == (lit_header() + emit_prev(v.prev))[0]);
    }
}

/// Parsing inverts emission: the JSON text of a representable block reads
/// back as exactly that block.
#[verifier::rlimit(100)]
#[verifier::spinoff_prover]
pub proof fn lemma_block_round_trip(v: BlockView)
    requires
        block_view_wf(v),
    ensures
        spec_parse_block(spec_emit_block(v)) == Some(v),
{
    reveal(spec_emit_block);
    reveal(spec_parse_block);
    let s = spec_emit_block(v);
    let d1 = dec_digits(v.index as nat);
    let i1: int = lit_index().len() as int;
    let i2: int = i1 + d1.len();
    lemma_block_top_segs(v);
    assert(expect(s, 0, lit_index()) == Some(i1));
    lemma_parse_u64_exact(s, i1, v.index, i2);
    lemma_parse_block_mid_exact(s, i2, v);
}


/// Relies on collecting an iterator of characters into a `String`: the
/// string holds exactly the characters given, in order.
#[verifier::external_body]
fn chars_to_string(v: &Vec<char>) -> (r: String)
    ensures
        r@ == v@,
{
    v.iter().collect()
}

/// Append a quoted string in escaped form.
fn emit_string_into(out: &mut String, x: &str)
    ensures
        final(out)@ == old(out)@ + emit_string(x@),
{
    let n = x.unicode_len();
    let mut escaped: Vec<char> = Vec::new();
    let mut i: usize = 0;
    proof {
        assert(escape_chars(x@.subrange(0, 0)) =~= Seq::<char>::empty());
        assert(escaped@ =~= escape_chars(x@.subrange(0, 0)));
    }
    while i < n
        invariant
            i <= n,
            n == x@.len(),
            escaped@ == escape_chars(x@.subrange(0, i as int)),
        decreases n - i,
    {
        let c = x.get_char(i);
        if c == '"' || c == '\\' {
            escaped.push('\\');
        }
        escaped.push(c);
        proof {
            let cur = x@.subrange(0, i as int + 1);
            assert(cur.drop_last() =~= x@.subrange(0, i as int));
            assert(cur.last() == x@[i as int]);
            assert(escaped@ =~= escape_chars(cur));
        }
        i += 1;
    }
    proof {
        assert(x@.subrange(0, n as int) =~= x@);
    }
    out.append("\"");
    let body = chars_to_string(&escaped);
    out.append(body.as_str());
    out.append("\"");
    proof {
        reveal_strlit("\"");
        assert(out@ =~= old(out)@ + emit_string(x@));
    }
}

/// Append a quoted amount.
fn emit_amount_into(out: &mut String, a: &Amount)
    requires
        amount_wf(*a),
    ensures
        final(out)@ == old(out)@ + emit_amount(*a),
{
    out.append("\"");
    let t = a.to_string();
    out.append(t.as_str());
    out.append("\"");
    proof {
        reveal_strlit("\"");
        assert(out@ =~= old(out)@ + emit_amount(*a));
    }
}

/// Append one input or output object.
fn emit_entry_into(out: &mut String, address: &str, amount: &Amount)
    requires
        amount_wf(*amount),
    ensures
        final(out)@ == old(out)@ + emit_entry(EntryView { address: address@, amount: *amount }),
{
    out.append("{\"address\":");
    proof {
        reveal_strlit("{\"address\":");
    }
    emit_string_into(out, address);
    out.append(",\"amount\":");
    proof {
        reveal_strlit(",\"amount\":");
    }
    emit_amount_into(out, amount);
    out.append("}");
    proof {
        reveal_strlit("}");
        assert(out@ =~= old(out)@ + emit_entry(
            EntryView { address: address@, amount: *amount },
        ));
    }
}

/// Append the bracketed list of inputs.
fn emit_inputs_into(out: &mut String, entries: &Vec<UnlockInput>)
    requires
        crate::transaction::inputs_wf(entries@),
    ensures
        final(out)@ == old(out)@ + emit_entries(input_views(entries@)),
{
    let ghost es = input_views(entries@);
    out.append("[");
    proof {
        reveal_strlit("[");
    }
    let n = entries.len();
    if n == 0 {
        out.append("]");
        proof {
            reveal_strlit("]");
            assert(out@ =~= old(out)@ + emit_entries(es));
        }
        return ;
    }
    emit_entry_into(out, entries[0].address.as_str(), &entries[0].amount);
    proof {
        assert(es[0] == (EntryView { address: entries@[0].address@, amount: entries@[0].amount }));
    }
    let mut i: usize = 1;
    proof {
        assert(es.subrange(1, 1) =~= Seq::<EntryView>::empty());
        assert(out@ =~= old(out)@ + seq!['['] + emit_entry(es[0]) + tail_emit(es.subrange(1, 1)));
    }
    while i < n
        invariant
            1 <= i <= n,
            n == entries@.len(),
            crate::transaction::inputs_wf(entries@),
            es == input_views(entries@),
            out@ == old(out)@ + seq!['['] + emit_entry(es[0]) + tail_emit(es.subrange(1, i as int)),
        decreases n - i,
    {
        out.append(",");
        proof {
            reveal_strlit(",");
        }
        emit_entry_into(out, entries[i].address.as_str(), &entries[i].amount);
        proof {
            assert(es[i as int] == (EntryView {
                address: entries@[i as int].address@,
                amount: entries@[i as int].amount,
            }));
            lemma_tail_emit_push(es.subrange(1, i as int), es[i as int]);
            assert(es.subrange(1, i as int + 1) =~= es.subrange(1, i as int).push(es[i as int]));
            assert(out@ =~= old(out)@ + seq!['['] + emit_entry(es[0]) + tail_emit(
                es.subrange(1, i as int + 1),
            ));
        }
        i += 1;
    }
    out.append("]");
    proof {
        reveal_strlit("]");
        assert(es.subrange(1, n as int) =~= es.drop_first());
        assert(out@ =~= old(out)@ + emit_entries(es));
    }
}

/// Append the bracketed list of outputs.
fn emit_outputs_into(out: &mut String, entries: &Vec<LockOutput>)
    requires
        crate::transaction::outputs_wf(entries@),
    ensures
        final(out)@ == old(out)@ + emit_entries(output_views(entries@)),
{
    let ghost es = output_views(entries@);
    out.append("[");
    proof {
        reveal_strlit("[");
    }
    let n = entries.len();
    if n == 0 {
        out.append("]");
        proof {
            reveal_strlit("]");
            assert(out@ =~= old(out)@ + emit_entries(es));
        }
        return ;
    }
    emit_entry_into(out, entries[0].address.as_str(), &entries[0].amount);
    proof {
        assert(es[0] == (EntryView { address: entries@[0].address@, amount: entries@[0].amount }));
    }
    let mut i: usize = 1;
    proof {
        assert(es.subrange(1, 1) =~= Seq::<EntryView>::empty());
        assert(out@ =~= old(out)@ + seq!['['] + emit_entry(es[0]) + tail_emit(es.subrange(1, 1)));
    }
    while i < n
        invariant
            1 <= i <= n,
            n == entries@.len(),
            crate::transaction::outputs_wf(entries@),
            es == output_views(entries@),
            out@ == old(out)@ + seq!['['] + emit_entry(es[0]) + tail_emit(es.subrange(1, i as int)),
        decreases n - i,
    {
        out.append(",");
        proof {
            reveal_strlit(",");
        }
        emit_entry_into(out, entries[i].address.as_str(), &entries[i].amount);
        proof {
            assert(es[i as int] == (EntryView {
                address: entries@[i as int].address@,
                amount: entries@[i as int].amount,
            }));
            lemma_tail_emit_push(es.subrange(1, i as int), es[i as int]);
            assert(es.subrange(1, i as int + 1) =~= es.subrange(1, i as int).push(es[i as int]));
            assert(out@ =~= old(out)@ + seq!['['] + emit_entry(es[0]) + tail_emit(
                es.subrange(1, i as int + 1),
            ));
        }
        i += 1;
    }
    out.append("]");
    proof {
        reveal_strlit("]");
        assert(es.subrange(1, n as int) =~= es.drop_first());
        assert(out@ =~= old(out)@ + emit_entries(es));
    }
}

fn emit_block_tail3_into(out: &mut String, b: &Block)
    ensures
        final(out)@ == old(out)@ + emit_block_tail3(block_view(*b)),
{
    out.append(",\"signature\":");
    proof {
        reveal_strlit(",\"signature\":");
    }
    emit_string_into(out, b.txns.signature.as_str());
    out.append("}}");
    proof {
        reveal_strlit("}}");
        assert(out@ =~= old(out)@ + emit_block_tail3(block_view(*b)));
    }
}

fn emit_block_tail2_into(out: &mut String, b: &Block)
    requires
        crate::transaction::outputs_wf(b.txns.outputs@),
    ensures
        final(out)@ == old(out)@ + emit_block_tail2(block_view(*b)),
{
    out.append(",\"outputs\":");
    proof {
        reveal_strlit(",\"outputs\":");
    }
    emit_outputs_into(out, &b.txns.outputs);
    emit_block_tail3_into(out, b);
    proof {
        assert(out@ =~= old(out)@ + emit_block_tail2(block_view(*b)));
    }
}

fn emit_block_tail_into(out: &mut String, b: &Block)
    requires
        crate::transaction::tx_wf(b.txns),
    ensures
        final(out)@ == old(out)@ + emit_block_tail(block_view(*b)),
{
    out.append("}},\"txns\":{\"version\":\"V1\",\"inputs\":");
    proof {
        reveal_strlit("}},\"txns\":{\"version\":\"V1\",\"inputs\":");
    }
    emit_inputs_into(out, &b.txns.inputs);
    emit_block_tail2_into(out, b);
    proof {
        assert(out@ =~= old(out)@ + emit_block_tail(block_view(*b)));
    }
}

fn emit_block_mid3_into(out: &mut String, b: &Block)
    requires
        crate::transaction::tx_wf(b.txns),
    ensures
        final(out)@ == old(out)@ + emit_block_mid3(block_view(*b)),
{
    out.append(",\"created_at\":{\"secs_since_epoch\":");
    proof {
        reveal_strlit(",\"created_at\":{\"secs_since_epoch\":");
    }
    push_digits(b.header.created_at.secs as u128, out);
    out.append(",\"nanos_since_epoch\":");
    proof {
        reveal_strlit(",\"nanos_since_epoch\":");
    }
    push_digits(b.header.created_at.nanos as u128, out);
    emit_block_tail_into(out, b);
    proof {
        assert(out@ =~= old(out)@ + emit_block_mid3(block_view(*b)));
    }
}

fn emit_block_mid2_into(out: &mut String, b: &Block)
    requires
        crate::transaction::tx_wf(b.txns),
    ensures
        final(out)@ == old(out)@ + emit_block_mid2(block_view(*b)),
{
    out.append(",\"merkle_root_hash\":");
    proof {
        reveal_strlit(",\"merkle_root_hash\":");
    }
    emit_string_into(out, b.header.merkle_root_hash.as_str());
    emit_block_mid3_into(out, b);
    proof {
        assert(out@ =~= old(out)@ + emit_block_mid2(block_view(*b)));
    }
}

#[verifier::rlimit(60)]
#[verifier::spinoff_prover]
fn emit_block_mid_into(out: &mut String, b: &Block)
    requires
        crate::transaction::tx_wf(b.txns),
    ensures
        final(out)@ == old(out)@ + emit_block_mid(block_view(*b)),
{
    out.append(",\"header\":{\"version\":\"V010\",\"previous_block_header_hash\":");
    proof {
        reveal_strlit(",\"header\":{\"version\":\"V010\",\"previous_block_header_hash\":");
    }
    match &b.header.previous_block_header_hash {
        None => {
            out.append("null");
            proof {
                reveal_strlit("null");
            }
        },
        Some(p) => {
            emit_string_into(out, p.as_str());
        },
    }
    emit_block_mid2_into(out, b);
    proof {
        assert(out@ =~= old(out)@ + emit_block_mid(block_view(*b)));
    }
}

/// Write out the JSON text of a block.
pub fn emit_block(b: &Block) -> (r: String)
    requires
        crate::block::block_wf(*b),
    ensures
        r@ == spec_emit_block(block_view(*b)),
{
    let mut out = String::new();
    out.append("{\"index\":");
    proof {
        reveal_strlit("{\"index\":");
        assert(out@ =~= lit_index());
    }
    push_digits(b.index as u128, &mut out);
    emit_block_mid_into(&mut out, b);
    proof {
        reveal(spec_emit_block);
        assert(out@ =~= spec_emit_block(block_view(*b)));
    }
    out
}


/// A longer digit string never writes a smaller number.
proof fn lemma_digits_value_prefix_le(t: Seq<char>, k: int, j: int)
    requires
        0 <= k <= j <= t.len(),
    ensures
        digits_value(t.subrange(0, k)) <= digits_value(t.subrange(0, j)),
    decreases j - k,
{
    if k < j {
        lemma_digits_value_prefix_le(t, k, j - 1);
        let cur = t.subrange(0, j);
        assert(cur.drop_last() =~= t.subrange(0, j - 1));
        assert(digits_value(t.subrange(0, j - 1)) * 10 >= digits_value(t.subrange(0, j - 1)));
    }
}

/// A digit string of width `w` writes a number below `10^w`.
proof fn lemma_digits_value_bound(t: Seq<char>)
    ensures
        digits_value(t) < pow10(t.len()),
    decreases t.len(),
{
    if t.len() == 0 {
    } else {
        lemma_digits_value_bound(t.drop_last());
        assert(pow10(t.len()) == 10 * pow10((t.len() - 1) as nat));
        assert(digit_val(t.last()) <= 9);
        assert(digits_value(t.drop_last()) * 10 + 9 < pow10(t.len())) by (nonlinear_arith)
            requires
                digits_value(t.drop_last()) < pow10((t.len() - 1) as nat),
                pow10(t.len()) == 10 * pow10((t.len() - 1) as nat),
        ;
    }
}

/// What the amount parser returns is well formed.
pub proof fn lemma_spec_parse_amount_wf(t: Seq<char>)
    ensures
        spec_parse_amount(t) matches Some(a) ==> amount_wf(a),
{
    let neg = t.len() > 0 && t[0] == '-';
    let u = if neg {
        t.drop_first()
    } else {
        t
    };
    let d = dot_end(u, 0);
    if spec_parse_amount(t) is Some {
        let a = spec_parse_amount(t)->Some_0;
        if d == u.len() {
            let v = digits_value(u.subrange(0, d));
            lemma_pow10_pos(18);
            lemma_pow10_adds(18, 18);
            lemma_pow10_limit();
            lemma_pow10_increases(18, 36);
            assert(v * pow10(18) <= pow10(18) * pow10(18)) by (nonlinear_arith)
                requires
                    v <= pow10(18),
                    pow10(18) >= 1,
            ;
            assert((-(v as int)) * pow10(18) == -(v as int * pow10(18))) by (nonlinear_arith);
            assert(a.scale == 0);
            assert(a.mantissa as int == (if neg { -(v as int) } else { v as int }));
            assert(amount_units(a) == (a.mantissa as int) * pow10(18));
            assert(amount_wf(a));
        } else {
            let w = (u.len() - d - 1) as nat;
            let m = digits_value(u.subrange(0, d)) * pow10(w) + digits_value(
                u.subrange(d + 1, u.len() as int),
            );
            lemma_pow10_pos((18 - w) as nat);
            lemma_pow10_pos((18 + w) as nat);
            lemma_pow10_adds((18 + w) as nat, (18 - w) as nat);
            lemma_pow10_limit();
            lemma_pow10_increases((18 + w) as nat, 36);
            lemma_pow10_increases(0, (18 - w) as nat);
            assert(m * pow10((18 - w) as nat) <= pow10((18 + w) as nat) * pow10((18 - w) as nat))
                by (nonlinear_arith)
                requires
                    m <= pow10((18 + w) as nat),
                    pow10((18 - w) as nat) >= 1,
            ;
            assert((-(m as int)) * pow10((18 - w) as nat) == -(m as int * pow10((18 - w) as nat)))
                by (nonlinear_arith);
            assert(a.scale == w as u32);
            assert(w <= 18);
            lemma_pow10_pos(w);
            assert(m >= 0) by (nonlinear_arith)
                requires
                    m == digits_value(u.subrange(0, d)) * pow10(w) + digits_value(
                        u.subrange(d + 1, u.len() as int),
                    ),
                    pow10(w) >= 1,
            ;
            assert(m <= pow10((18 + w) as nat));
            assert(pow10((18 + w) as nat) <= pow10(36));
            assert(-pow10(36) <= (if neg { -(m as int) } else { m as int }) <= pow10(36));
            assert(a.mantissa as int == (if neg { -(m as int) } else { m as int }));
            assert(amount_units(a) == (a.mantissa as int) * pow10((18 - w) as nat));
            assert(amount_wf(a));
        }
    }
}

/// Match a fixed piece of text at `i`.
fn exec_expect(s: &Vec<char>, i: usize, lit: &str) -> (r: Option<usize>)
    requires
        i <= s@.len(),
    ensures
        match r {
            Some(j) => expect(s@, i as int, lit@) == Some(j as int) && j as int == i + lit@.len()
                && j <= s@.len(),
            None => expect(s@, i as int, lit@) is None,
        },
{
    let m = lit.unicode_len();
    if s.len() - i < m {
        return None;
    }
    let mut k: usize = 0;
    while k < m
        invariant
            k <= m,
            m == lit@.len(),
            i + m <= s@.len(),
            s@.len() <= usize::MAX,
            forall|p: int| 0 <= p < k ==> s@[i + p] == lit@[p],
        decreases m - k,
    {
        assert(i + k < s@.len());
        if s[i + k] != lit.get_char(k) {
            proof {
                assert(s@.subrange(i as int, i + lit@.len()) != lit@) by {
                    assert(s@.subrange(i as int, i + lit@.len())[k as int] == s@[i + k]);
                }
            }
            return None;
        }
        k += 1;
    }
    proof {
        assert(s@.subrange(i as int, i + lit@.len()) =~= lit@);
    }
    Some(i + m)
}

/// Read a decimal number at `i`.
fn exec_parse_u64(s: &Vec<char>, i: usize) -> (r: Option<(u64, usize)>)
    requires
        i <= s@.len(),
    ensures
        match r {
            Some(v) => spec_parse_u64(s@, i as int) == Some((v.0, v.1 as int)) && i < v.1
                <= s@.len(),
            None => spec_parse_u64(s@, i as int) is None,
        },
{
    let n = s.len();
    let mut j: usize = i;
    while j < n && (s[j] as u32) >= 48 && (s[j] as u32) <= 57
        invariant
            i <= j <= n,
            n == s@.len(),
            forall|p: int| i <= p < j ==> is_digit(#[trigger] s@[p]),
        decreases n - j,
    {
        j += 1;
    }
    proof {
        lemma_digit_run_end(s@, i as int, j as int);
    }
    if j == i {
        return None;
    }
    let ghost run = s@.subrange(i as int, j as int);
    let mut v: u64 = 0;
    let mut k: usize = i;
    while k < j
        invariant
            i <= k <= j <= n,
            n == s@.len(),
            run == s@.subrange(i as int, j as int),
            digit_run_end(s@, i as int) == j as int,
            digits_value(run) <= 0xffff_ffff_ffff_ffff || k < j,
            forall|p: int| i <= p < j ==> is_digit(#[trigger] s@[p]),
            v as nat == digits_value(s@.subrange(i as int, k as int)),
        decreases j - k,
    {
        let d = (s[k] as u32 - 48) as u64;
        proof {
            let cur = s@.subrange(i as int, k as int + 1);
            assert(cur.drop_last() =~= s@.subrange(i as int, k as int));
            assert(cur.last() == s@[k as int]);
            assert(digit_val(s@[k as int]) == d as nat);
            vstd::arithmetic::div_mod::lemma_fundamental_div_mod((0xffff_ffff_ffff_ffffu64 - d) as int, 10);
        }
        if v > (0xffff_ffff_ffff_ffffu64 - d) / 10 {
            proof {
                lemma_digits_value_prefix_le(s@.subrange(i as int, j as int), k + 1 - i, j - i);
                assert(s@.subrange(i as int, j as int).subrange(0, k + 1 - i) =~= s@.subrange(
                    i as int,
                    k as int + 1,
                ));
                assert(s@.subrange(i as int, j as int).subrange(0, j - i) =~= s@.subrange(
                    i as int,
                    j as int,
                ));
            }
            return None;
        }
        v = v * 10 + d;
        k += 1;
    }
    proof {
        assert(s@.subrange(i as int, k as int) =~= run);
    }
    Some((v, j))
}

/// Read a quoted string at `i`, returning its unescaped characters.
fn exec_parse_string(s: &Vec<char>, i: usize) -> (r: Option<(Vec<char>, usize)>)
    requires
        i <= s@.len(),
    ensures
        match r {
            Some(v) => spec_parse_string(s@, i as int) == Some((v.0@, v.1 as int)) && i < v.1
                <= s@.len(),
            None => spec_parse_string(s@, i as int) is None,
        },
{
    let n = s.len();
    if i >= n || s[i] != '"' {
        return None;
    }
    let mut cs: Vec<char> = Vec::new();
    let mut j: usize = i + 1;
    loop
        invariant
            i + 1 <= j <= n,
            n == s@.len(),
            s@[i as int] == '"',
            scan_string(s@, i as int + 1) is Some <==> scan_string(s@, j as int) is Some,
            scan_string(s@, j as int) matches Some(p) ==> scan_string(s@, i as int + 1) == Some(
                (cs@ + p.0, p.1),
            ),
        decreases n - j,
    {
        proof {
            reveal(scan_string);
        }
        if j >= n {
            return None;
        }
        let c = s[j];
        if c == '"' {
            proof {
                assert(scan_string(s@, j as int) == Some((Seq::<char>::empty(), j as int + 1)));
                assert(cs@ + Seq::<char>::empty() =~= cs@);
            }
            return Some((cs, j + 1));
        }
        if c == '\\' {
            if j + 1 >= n {
                proof {
                    assert(scan_string(s@, j as int) is None);
                }
                return None;
            }
            let ghost prev = cs@;
            cs.push(s[j + 1]);
            proof {
                assert(cs@ =~= prev + seq![s@[j as int + 1]]);
                match scan_string(s@, j as int + 2) {
                    Some(p) => {
                        assert(scan_string(s@, j as int) == Some(
                            (seq![s@[j as int + 1]] + p.0, p.1),
                        ));
                        assert(prev + (seq![s@[j as int + 1]] + p.0) =~= cs@ + p.0);
                    },
                    None => {
                        assert(scan_string(s@, j as int) is None);
                    },
                }
            }
            j += 2;
        } else {
            let ghost prev = cs@;
            cs.push(c);
            proof {
                assert(cs@ =~= prev + seq![s@[j as int]]);
                match scan_string(s@, j as int + 1) {
                    Some(p) => {
                        assert(scan_string(s@, j as int) == Some((seq![s@[j as int]] + p.0, p.1)));
                        assert(prev + (seq![s@[j as int]] + p.0) =~= cs@ + p.0);
                    },
                    None => {
                        assert(scan_string(s@, j as int) is None);
                    },
                }
            }
            j += 1;
        }
    }
}

/// Turn a string into its characters.
fn str_chars(s: &str) -> (r: Vec<char>)
    ensures
        r@ == s@,
{
    let n = s.unicode_len();
    let mut r: Vec<char> = Vec::new();
    let mut i: usize = 0;
    while i < n
        invariant
            i <= n,
            n == s@.len(),
            r@ == s@.subrange(0, i as int),
        decreases n - i,
    {
        r.push(s.get_char(i));
        proof {
            assert(r@ =~= s@.subrange(0, i as int + 1));
        }
        i += 1;
    }
    proof {
        assert(s@.subrange(0, n as int) =~= s@);
    }
    r
}

/// Read an amount from its decimal characters.
#[verifier::rlimit(100)]
fn exec_parse_amount(t: &Vec<char>) -> (r: Option<Amount>)
    ensures
        match r {
            Some(a) => spec_parse_amount(t@) == Some(a) && amount_wf(a),
            None => spec_parse_amount(t@) is None,
        },
{
    proof {
        lemma_spec_parse_amount_wf(t@);
        lemma_pow10_limit();
    }
    let n = t.len();
    let neg = n > 0 && t[0] == '-';
    let start: usize = if neg {
        1
    } else {
        0
    };
    let ghost u = if neg {
        t@.drop_first()
    } else {
        t@
    };
    proof {
        assert(u =~= t@.subrange(start as int, n as int));
        assert(forall|k: int| 0 <= k < u.len() ==> u[k] == #[trigger] t@[k + start]);
    }
    let mut d: usize = start;
    while d < n && t[d] != '.'
        invariant
            start <= d <= n,
            n == t@.len(),
            forall|p: int| start <= p < d ==> #[trigger] t@[p] != '.',
        decreases n - d,
    {
        d += 1;
    }
    proof {
        assert forall|p: int| 0 <= p < d - start implies #[trigger] u[p] != '.' by {
            assert(u[p] == t@[p + start]);
        }
        if d < n {
            assert(u[d - start] == t@[d as int]);
        }
        lemma_dot_end(u, 0, d - start);
    }
    let du = d - start;
    if du < 1 {
        return None;
    }
    let limit36 = crate::amount::pow10_u128(36);
    let mut vi: u128 = 0;
    let mut k: usize = start;
    while k < d
        invariant
            start <= k <= d <= n,
            n == t@.len(),
            1 <= d - start,
            u == (if neg { t@.drop_first() } else { t@ }),
            u =~= t@.subrange(start as int, n as int),
            dot_end(u, 0) == d - start,
            limit36 == pow10(36),
            neg == (t@.len() > 0 && t@[0] == '-'),
            start == (if neg { 1int } else { 0int }),
            forall|p: int| 0 <= p < k - start ==> is_digit(#[trigger] u[p]),
            vi as nat == digits_value(u.subrange(0, k - start)),
            vi <= pow10(36),
        decreases d - k,
    {
        let c = t[k];
        let cu = c as u32;
        proof {
            assert(u[k - start] == t@[k as int]);
        }
        if !(48 <= cu && cu <= 57) {
            proof {
                assert(!is_digit(u[k - start]));
                assert(u.subrange(0, d - start)[k - start] == u[k - start]);
                assert(!all_digits(u.subrange(0, d - start)));
            }
            return None;
        }
        let dig = (cu - 48) as u128;
        proof {
            lemma_pow10_limit();
            let cur = u.subrange(0, k - start + 1);
            assert(cur.drop_last() =~= u.subrange(0, k - start));
            assert(cur.last() == u[k - start]);
            assert(digit_val(u[k - start]) == dig as nat);
        }
        vi = vi * 10 + dig;
        if vi > limit36 {
            proof {
                lemma_digits_value_prefix_le(u.subrange(0, d - start), k - start + 1, d - start);
                assert(u.subrange(0, d - start).subrange(0, k - start + 1) =~= u.subrange(
                    0,
                    k - start + 1,
                ));
                assert(u.subrange(0, d - start).subrange(0, d - start) =~= u.subrange(
                    0,
                    d - start,
                ));
                let v = digits_value(u.subrange(0, d - start));
                assert(v > pow10(36));
                lemma_pow10_increases(18, 36);
                if d - start != u.len() {
                    let w = u.len() - (d - start) - 1;
                    if 1 <= w <= 18 {
                        let fv = digits_value(u.subrange(d - start + 1, u.len() as int));
                        lemma_pow10_pos(w as nat);
                        assert(v * pow10(w as nat) + fv >= v) by (nonlinear_arith)
                            requires
                                pow10(w as nat) >= 1,
                                fv >= 0,
                                v >= 0,
                        ;
                        lemma_pow10_increases((18 + w) as nat, 36);
                    }
                }
            }
            return None;
        }
        k += 1;
    }
    proof {
        assert(u.subrange(0, d - start) =~= u.subrange(0, k - start));
    }
    if d == n {
        let limit18 = crate::amount::pow10_u128(18);
        if vi > limit18 {
            return None;
        }
        let m: i128 = if neg {
            -(vi as i128)
        } else {
            vi as i128
        };
        proof {
            lemma_pow10_increases(18, 36);
            assert(u.subrange(0, d - start) =~= u);
        }
        return Some(Amount { mantissa: m, scale: 0 });
    }
    let w = n - d - 1;
    if w < 1 || w > 18 {
        return None;
    }
    let mut vf: u128 = 0;
    let mut k2: usize = d + 1;
    proof {
        lemma_pow10_increases(w as nat, 18);
        lemma_pow10_increases(18, 36);
        lemma_pow10_pos(18);
        assert(u.subrange(d + 1 - start, d + 1 - start) =~= Seq::<char>::empty());
    }
    while k2 < n
        invariant
            d + 1 <= k2 <= n,
            n == t@.len(),
            1 <= w <= 18,
            w == n - d - 1,
            start <= d < n,
            u == (if neg { t@.drop_first() } else { t@ }),
            u =~= t@.subrange(start as int, n as int),
            dot_end(u, 0) == d - start,
            neg == (t@.len() > 0 && t@[0] == '-'),
            start == (if neg { 1int } else { 0int }),
            forall|p: int| d + 1 - start <= p < k2 - start ==> is_digit(#[trigger] u[p]),
            vf as nat == digits_value(u.subrange(d + 1 - start, k2 - start)),
            vf < pow10(18),
        decreases n - k2,
    {
        let c = t[k2];
        let cu = c as u32;
        proof {
            lemma_pow10_limit();
            lemma_pow10_increases(18, 36);
            assert(u[k2 - start] == t@[k2 as int]);
        }
        if !(48 <= cu && cu <= 57) {
            proof {
                assert(!is_digit(u[k2 - start]));
                assert(u.subrange(d + 1 - start, u.len() as int)[k2 - d - 1] == u[k2 - start]);
                assert(!all_digits(u.subrange(d + 1 - start, u.len() as int)));
            }
            return None;
        }
        let dig = (cu - 48) as u128;
        proof {
            let cur = u.subrange(d + 1 - start, k2 - start + 1);
            assert(cur.drop_last() =~= u.subrange(d + 1 - start, k2 - start));
            assert(cur.last() == u[k2 - start]);
            assert(digit_val(u[k2 - start]) == dig as nat);
            lemma_digits_value_bound(cur);
            assert(cur.len() <= 18);
            lemma_pow10_increases(cur.len(), 18);
            lemma_pow10_limit();
        }
        vf = vf * 10 + dig;
        k2 += 1;
    }
    let limit18 = crate::amount::pow10_u128(18);
    let pw = crate::amount::pow10_u128(w as u32);
    let ghost fp = u.subrange(d + 1 - start, u.len() as int);
    proof {
        assert(fp =~= u.subrange(d + 1 - start, k2 - start));
    }
    if vi > limit18 {
        proof {
            lemma_pow10_adds(18, w as nat);
            lemma_pow10_pos(w as nat);
            assert(vi * pow10(w as nat) + (vf as nat) > pow10((18 + w) as nat)) by (nonlinear_arith)
                requires
                    vi > pow10(18),
                    pow10((18 + w) as nat) == pow10(18) * pow10(w as nat),
                    pow10(w as nat) >= 1,
                    vf >= 0,
            ;
        }
        return None;
    }
    proof {
        lemma_pow10_adds(18, w as nat);
        lemma_pow10_pos(w as nat);
        lemma_pow10_increases(w as nat, 18);
        assert(vi * pw <= pow10(18) * pow10(w as nat)) by (nonlinear_arith)
            requires
                vi <= pow10(18),
                pw == pow10(w as nat),
                pw >= 1,
        ;
        lemma_pow10_increases((18 + w) as nat, 36);
    }
    let m0 = vi * pw + vf;
    let limit_w = crate::amount::pow10_u128(18 + w as u32);
    if m0 > limit_w {
        return None;
    }
    let m: i128 = if neg {
        -(m0 as i128)
    } else {
        m0 as i128
    };
    Some(Amount { mantissa: m, scale: w as u32 })
}


/// Read one input or output object at `i`.
fn exec_parse_entry(s: &Vec<char>, i: usize) -> (r: Option<(String, Amount, usize)>)
    requires
        i <= s@.len(),
    ensures
        match r {
            Some(v) => spec_parse_entry(s@, i as int) == Some(
                (EntryView { address: v.0@, amount: v.1 }, v.2 as int),
            ) && i < v.2 <= s@.len() && amount_wf(v.1) && amount_units(v.1) >= 0,
            None => spec_parse_entry(s@, i as int) is None,
        },
{
    proof {
        reveal_strlit("{\"address\":");
        assert("{\"address\":"@ =~= lit_address());
        reveal_strlit(",\"amount\":");
        assert(",\"amount\":"@ =~= lit_amount());
        reveal_strlit("}");
        assert("}"@ =~= seq!['}']);
    }
    let i1 = match exec_expect(s, i, "{\"address\":") {
        Some(p) => p,
        None => {
            return None;
        },
    };
    let (addr_chars, i2) = match exec_parse_string(s, i1) {
        Some(p) => p,
        None => {
            return None;
        },
    };
    let i3 = match exec_expect(s, i2, ",\"amount\":") {
        Some(p) => p,
        None => {
            return None;
        },
    };
    let (amt_chars, i4) = match exec_parse_string(s, i3) {
        Some(p) => p,
        None => {
            return None;
        },
    };
    let a = match exec_parse_amount(&amt_chars) {
        Some(a) => a,
        None => {
            return None;
        },
    };
    if a.is_negative() {
        return None;
    }
    let i5 = match exec_expect(s, i4, "}") {
        Some(p) => p,
        None => {
            return None;
        },
    };
    let address = chars_to_string(&addr_chars);
    Some((address, a, i5))
}

/// Read the bracketed list of inputs at `i`.
fn exec_parse_inputs(s: &Vec<char>, i: usize) -> (r: Option<(Vec<UnlockInput>, usize)>)
    requires
        i <= s@.len(),
    ensures
        match r {
            Some(v) => spec_parse_entries(s@, i as int) == Some((input_views(v.0@), v.1 as int))
                && i < v.1 <= s@.len() && crate::transaction::inputs_wf(v.0@),
            None => spec_parse_entries(s@, i as int) is None,
        },
{
    proof {
        reveal_strlit("[");
        assert("["@ =~= seq!['[']);
    }
    let i1 = match exec_expect(s, i, "[") {
        Some(p) => p,
        None => {
            return None;
        },
    };
    let n = s.len();
    if i1 < n && s[i1] == ']' {
        let empty: Vec<UnlockInput> = Vec::new();
        proof {
            assert(input_views(empty@) =~= Seq::<EntryView>::empty());
        }
        return Some((empty, i1 + 1));
    }
    let (addr, a, j) = match exec_parse_entry(s, i1) {
        Some(p) => p,
        None => {
            return None;
        },
    };
    let mut acc: Vec<UnlockInput> = Vec::new();
    let ghost e0 = EntryView { address: addr@, amount: a };
    acc.push(UnlockInput { address: addr, amount: a });
    proof {
        assert(input_views(acc@) =~= seq![e0]);
    }
    let mut pos = j;
    loop
        invariant
            i < pos <= s@.len(),
            s@.len() <= usize::MAX,
            crate::transaction::inputs_wf(acc@),
            spec_parse_entries(s@, i as int) == spec_parse_entries_rest(
                s@,
                pos as int,
                input_views(acc@),
            ),
        decreases s@.len() - pos,
    {
        if pos >= s.len() {
            return None;
        }
        if s[pos] == ']' {
            return Some((acc, pos + 1));
        }
        if s[pos] != ',' {
            return None;
        }
        let (addr2, a2, j2) = match exec_parse_entry(s, pos + 1) {
            Some(p) => p,
            None => {
                return None;
            },
        };
        let ghost prev_views = input_views(acc@);
        let ghost e2 = EntryView { address: addr2@, amount: a2 };
        acc.push(UnlockInput { address: addr2, amount: a2 });
        proof {
            assert(input_views(acc@) =~= prev_views.push(e2));
        }
        pos = j2;
    }
}

/// Read the bracketed list of outputs at `i`.
fn exec_parse_outputs(s: &Vec<char>, i: usize) -> (r: Option<(Vec<LockOutput>, usize)>)
    requires
        i <= s@.len(),
    ensures
        match r {
            Some(v) => spec_parse_entries(s@, i as int) == Some((output_views(v.0@), v.1 as int))
                && i < v.1 <= s@.len() && crate::transaction::outputs_wf(v.0@),
            None => spec_parse_entries(s@, i as int) is None,
        },
{
    proof {
        reveal_strlit("[");
        assert("["@ =~= seq!['[']);
    }
    let i1 = match exec_expect(s, i, "[") {
        Some(p) => p,
        None => {
            return None;
        },
    };
    let n = s.len();
    if i1 < n && s[i1] == ']' {
        let empty: Vec<LockOutput> = Vec::new();
        proof {
            assert(output_views(empty@) =~= Seq::<EntryView>::empty());
        }
        return Some((empty, i1 + 1));
    }
    let (addr, a, j) = match exec_parse_entry(s, i1) {
        Some(p) => p,
        None => {
            return None;
        },
    };
    let mut acc: Vec<LockOutput> = Vec::new();
    let ghost e0 = EntryView { address: addr@, amount: a };
    acc.push(LockOutput { address: addr, amount: a });
    proof {
        assert(output_views(acc@) =~= seq![e0]);
    }
    let mut pos = j;
    loop
        invariant
            i < pos <= s@.len(),
            s@.len() <= usize::MAX,
            crate::transaction::outputs_wf(acc@),
            spec_parse_entries(s@, i as int) == spec_parse_entries_rest(
                s@,
                pos as int,
                output_views(acc@),
            ),
        decreases s@.len() - pos,
    {
        if pos >= s.len() {
            return None;
        }
        if s[pos] == ']' {
            return Some((acc, pos + 1));
        }
        if s[pos] != ',' {
            return None;
        }
        let (addr2, a2, j2) = match exec_parse_entry(s, pos + 1) {
            Some(p) => p,
            None => {
                return None;
            },
        };
        let ghost prev_views = output_views(acc@);
        let ghost e2 = EntryView { address: addr2@, amount: a2 };
        acc.push(LockOutput { address: addr2, amount: a2 });
        proof {
            assert(output_views(acc@) =~= prev_views.push(e2));
        }
        pos = j2;
    }
}



/// The characters of an optional string.
pub open spec fn opt_view(p: Option<String>) -> Option<Seq<char>> {
    match p {
        Some(x) => Some(x@),
        None => None,
    }
}

#[verifier::rlimit(100)]
#[verifier::spinoff_prover]
fn exec_parse_block_tail3(
    s: &Vec<char>,
    i: usize,
    index: u64,
    prev: Option<String>,
    merkle: String,
    secs: u64,
    nanos: u32,
    inputs: Vec<UnlockInput>,
    outputs: Vec<LockOutput>,
) -> (r: Option<Block>)
    requires
        i <= s@.len(),
        nanos < 1000000000,
        crate::transaction::inputs_wf(inputs@),
        crate::transaction::outputs_wf(outputs@),
    ensures
        match r {
            Some(b) => spec_parse_block_tail3(
                s@,
                i as int,
                index,
                opt_view(prev),
                merkle@,
                secs,
                nanos,
                input_views(inputs@),
                output_views(outputs@),
            ) == Some(block_view(b)) && crate::block::block_wf(b),
            None => spec_parse_block_tail3(
                s@,
                i as int,
                index,
                opt_view(prev),
                merkle@,
                secs,
                nanos,
                input_views(inputs@),
                output_views(outputs@),
            ) is None,
        },
{
    proof {
        reveal_strlit(",\"signature\":");
        assert(",\"signature\":"@ =~= lit_signature());
        reveal_strlit("}}");
        assert("}}"@ =~= lit_end());
    }
    let i1 = match exec_expect(s, i, ",\"signature\":") {
        Some(p) => p,
        None => {
            return None;
        },
    };
    let (sig_chars, i2) = match exec_parse_string(s, i1) {
        Some(p) => p,
        None => {
            return None;
        },
    };
    let i3 = match exec_expect(s, i2, "}}") {
        Some(p) => p,
        None => {
            return None;
        },
    };
    if i3 != s.len() {
        return None;
    }
    let b = Block {
        index,
        header: crate::block::Header {
            version: crate::block::Version::V010,
            previous_block_header_hash: prev,
            merkle_root_hash: merkle,
            created_at: Timestamp { secs, nanos },
        },
        txns: crate::transaction::Transaction {
            version: crate::transaction::TransactionVersion::V1,
            inputs,
            outputs,
            signature: chars_to_string(&sig_chars),
        },
    };
    Some(b)
}

#[verifier::rlimit(100)]
#[verifier::spinoff_prover]
fn exec_parse_block_tail2(
    s: &Vec<char>,
    i: usize,
    index: u64,
    prev: Option<String>,
    merkle: String,
    secs: u64,
    nanos: u32,
    inputs: Vec<UnlockInput>,
) -> (r: Option<Block>)
    requires
        i <= s@.len(),
        nanos < 1000000000,
        crate::transaction::inputs_wf(inputs@),
    ensures
        match r {
            Some(b) => spec_parse_block_tail2(
                s@,
                i as int,
                index,
                opt_view(prev),
                merkle@,
                secs,
                nanos,
                input_views(inputs@),
            ) == Some(block_view(b)) && crate::block::block_wf(b),
            None => spec_parse_block_tail2(
                s@,
                i as int,
                index,
                opt_view(prev),
                merkle@,
                secs,
                nanos,
                input_views(inputs@),
            ) is None,
        },
{
    proof {
        reveal_strlit(",\"outputs\":");
        assert(",\"outputs\":"@ =~= lit_outputs());
    }
    let i1 = match exec_expect(s, i, ",\"outputs\":") {
        Some(p) => p,
        None => {
            return None;
        },
    };
    let (outputs, i2) = match exec_parse_outputs(s, i1) {
        Some(p) => p,
        None => {
            return None;
        },
    };
    exec_parse_block_tail3(s, i2, index, prev, merkle, secs, nanos, inputs, outputs)
}

#[verifier::rlimit(100)]
#[verifier::spinoff_prover]
fn exec_parse_block_tail(
    s: &Vec<char>,
    i: usize,
    index: u64,
    prev: Option<String>,
    merkle: String,
    secs: u64,
    nanos: u32,
) -> (r: Option<Block>)
    requires
        i <= s@.len(),
        nanos < 1000000000,
    ensures
        match r {
            Some(b) => spec_parse_block_tail(
                s@,
                i as int,
                index,
                opt_view(prev),
                merkle@,
                secs,
                nanos,
            ) == Some(block_view(b)) && crate::block::block_wf(b),
            None => spec_parse_block_tail(
                s@,
                i as int,
                index,
                opt_view(prev),
                merkle@,
                secs,
                nanos,
            ) is None,
        },
{
    proof {
        reveal_strlit("}},\"txns\":{\"version\":\"V1\",\"inputs\":");
        assert("}},\"txns\":{\"version\":\"V1\",\"inputs\":"@ =~= lit_txns());
    }
    let i1 = match exec_expect(s, i, "}},\"txns\":{\"version\":\"V1\",\"inputs\":") {
        Some(p) => p,
        None => {
            return None;
        },
    };
    let (inputs, i2) = match exec_parse_inputs(s, i1) {
        Some(p) => p,
        None => {
            return None;
        },
    };
    exec_parse_block_tail2(s, i2, index, prev, merkle, secs, nanos, inputs)
}

#[verifier::rlimit(100)]
#[verifier::spinoff_prover]
fn exec_parse_block_mid3(
    s: &Vec<char>,
    i: usize,
    index: u64,
    prev: Option<String>,
    merkle: String,
) -> (r: Option<Block>)
    requires
        i <= s@.len(),
    ensures
        match r {
            Some(b) => spec_parse_block_mid3(s@, i as int, index, opt_view(prev), merkle@)
                == Some(block_view(b)) && crate::block::block_wf(b),
            None => spec_parse_block_mid3(s@, i as int, index, opt_view(prev), merkle@) is None,
        },
{
    proof {
        reveal_strlit(",\"created_at\":{\"secs_since_epoch\":");
        assert(",\"created_at\":{\"secs_since_epoch\":"@ =~= lit_created());
        reveal_strlit(",\"nanos_since_epoch\":");
        assert(",\"nanos_since_epoch\":"@ =~= lit_nanos());
    }
    let i1 = match exec_expect(s, i, ",\"created_at\":{\"secs_since_epoch\":") {
        Some(p) => p,
        None => {
            return None;
        },
    };
    let (secs, i2) = match exec_parse_u64(s, i1) {
        Some(p) => p,
        None => {
            return None;
        },
    };
    let i3 = match exec_expect(s, i2, ",\"nanos_since_epoch\":") {
        Some(p) => p,
        None => {
            return None;
        },
    };
    let (nv, i4) = match exec_parse_u64(s, i3) {
        Some(p) => p,
        None => {
            return None;
        },
    };
    if nv >= 1000000000 {
        return None;
    }
    exec_parse_block_tail(s, i4, index, prev, merkle, secs, nv as u32)
}

#[verifier::rlimit(100)]
#[verifier::spinoff_prover]
fn exec_parse_block_mid2(s: &Vec<char>, i: usize, index: u64, prev: Option<String>) -> (r: Option<
    Block,
>)
    requires
        i <= s@.len(),
    ensures
        match r {
            Some(b) => spec_parse_block_mid2(s@, i as int, index, opt_view(prev)) == Some(
                block_view(b),
            ) && crate::block::block_wf(b),
            None => spec_parse_block_mid2(s@, i as int, index, opt_view(prev)) is None,
        },
{
    proof {
        reveal_strlit(",\"merkle_root_hash\":");
        assert(",\"merkle_root_hash\":"@ =~= lit_merkle());
    }
    let i1 = match exec_expect(s, i, ",\"merkle_root_hash\":") {
        Some(p) => p,
        None => {
            return None;
        },
    };
    let (merkle_chars, i2) = match exec_parse_string(s, i1) {
        Some(p) => p,
        None => {
            return None;
        },
    };
    exec_parse_block_mid3(s, i2, index, prev, chars_to_string(&merkle_chars))
}

#[verifier::rlimit(100)]
#[verifier::spinoff_prover]
fn exec_parse_block_mid(s: &Vec<char>, i: usize, index: u64) -> (r: Option<Block>)
    requires
        i <= s@.len(),
    ensures
        match r {
            Some(b) => spec_parse_block_mid(s@, i as int, index) == Some(block_view(b))
                && crate::block::block_wf(b),
            None => spec_parse_block_mid(s@, i as int, index) is None,
        },
{
    proof {
        reveal_strlit(",\"header\":{\"version\":\"V010\",\"previous_block_header_hash\":");
        assert(",\"header\":{\"version\":\"V010\",\"previous_block_header_hash\":"@
            =~= lit_header());
        reveal_strlit("null");
        assert("null"@ =~= lit_null());
    }
    let i1 = match exec_expect(
        s,
        i,
        ",\"header\":{\"version\":\"V010\",\"previous_block_header_hash\":",
    ) {
        Some(p) => p,
        None => {
            return None;
        },
    };
    if i1 < s.len() && s[i1] == 'n' {
        let i2 = match exec_expect(s, i1, "null") {
            Some(p) => p,
            None => {
                return None;
            },
        };
        exec_parse_block_mid2(s, i2, index, None)
    } else {
        let (prev_chars, i2) = match exec_parse_string(s, i1) {
            Some(p) => p,
            None => {
                return None;
            },
        };
        exec_parse_block_mid2(s, i2, index, Some(chars_to_string(&prev_chars)))
    }
}

/// Read a block from its JSON text; fails on anything the emitter would
/// not produce.
#[verifier::rlimit(100)]
#[verifier::spinoff_prover]
pub fn parse_block(s: &str) -> (r: Option<Block>)
    ensures
        match r {
            Some(b) => spec_parse_block(s@) == Some(block_view(b)) && crate::block::block_wf(b),
            None => spec_parse_block(s@) is None,
        },
{
    proof {
        reveal(spec_parse_block);
        reveal_strlit("{\"index\":");
        assert("{\"index\":"@ =~= lit_index());
    }
    let cs = str_chars(s);
    let i1 = match exec_expect(&cs, 0, "{\"index\":") {
        Some(p) => p,
        None => {
            return None;
        },
    };
    let (index, i2) = match exec_parse_u64(&cs, i1) {
        Some(p) => p,
        None => {
            return None;
        },
    };
    exec_parse_block_mid(&cs, i2, index)
}


/// A well-formed block is representable.
pub proof fn lemma_block_view_wf(b: Block)
    requires
        crate::block::block_wf(b),
    ensures
        block_view_wf(block_view(b)),
{
    let v = block_view(b);
    assert forall|i: int| 0 <= i < v.inputs.len() implies entry_view_wf(#[trigger] v.inputs[i]) by {
        assert(v.inputs[i].amount == b.txns.inputs@[i].amount);
        assert(crate::transaction::input_wf(b.txns.inputs@[i]));
    }
    assert forall|i: int| 0 <= i < v.outputs.len() implies entry_view_wf(
        #[trigger] v.outputs[i],
    ) by {
        assert(v.outputs[i].amount == b.txns.outputs@[i].amount);
        assert(crate::transaction::output_wf(b.txns.outputs@[i]));
    }
}


/// What the entry parser returns is well formed: the amount parser only
/// returns well-formed amounts, and the entry parser rejects negatives.
pub proof fn lemma_parse_entry_wf(s: Seq<char>, i: int)
    ensures
        spec_parse_entry(s, i) matches Some(p) ==> entry_view_wf(p.0),
{
    match expect(s, i, lit_address()) {
        None => {},
        Some(i1) => {
            match spec_parse_string(s, i1) {
                None => {},
                Some((addr, i2)) => {
                    match expect(s, i2, lit_amount()) {
                        None => {},
                        Some(i3) => {
                            match spec_parse_string(s, i3) {
                                None => {},
                                Some((t, i4)) => {
                                    lemma_spec_parse_amount_wf(t);
                                },
                            }
                        },
                    }
                },
            }
        },
    }
}

proof fn lemma_parse_entries_rest_wf(s: Seq<char>, i: int, acc: Seq<EntryView>)
    requires
        entries_view_wf(acc),
    ensures
        spec_parse_entries_rest(s, i, acc) matches Some(p) ==> entries_view_wf(p.0),
    decreases s.len() - i,
{
    if 0 <= i < s.len() && s[i] != ']' && s[i] == ',' {
        match spec_parse_entry(s, i + 1) {
            None => {},
            Some((e, j)) => {
                lemma_parse_entry_wf(s, i + 1);
                if i + 1 < j <= s.len() {
                    assert(entries_view_wf(acc.push(e))) by {
                        assert(forall|k: int|
                            0 <= k < acc.len() ==> #[trigger] acc.push(e)[k] == acc[k]);
                        assert(acc.push(e)[acc.len() as int] == e);
                    }
                    lemma_parse_entries_rest_wf(s, j, acc.push(e));
                }
            },
        }
    }
}

/// What the entry-list parser returns is well formed.
pub proof fn lemma_parse_entries_wf(s: Seq<char>, i: int)
    ensures
        spec_parse_entries(s, i) matches Some(p) ==> entries_view_wf(p.0),
{
    match expect(s, i, seq!['[']) {
        None => {},
        Some(i1) => {
            if 0 <= i1 < s.len() && s[i1] == ']' {
            } else {
                match spec_parse_entry(s, i1) {
                    None => {},
                    Some((e, j)) => {
                        lemma_parse_entry_wf(s, i1);
                        if i1 < j <= s.len() {
                            assert(entries_view_wf(seq![e])) by {
                                assert(seq![e][0] == e);
                            }
                            lemma_parse_entries_rest_wf(s, j, seq![e]);
                        }
                    },
                }
            }
        },
    }
}

proof fn lemma_parse_block_tail3_wf(
    s: Seq<char>,
    i: int,
    index: u64,
    prev: Option<Seq<char>>,
    merkle: Seq<char>,
    secs: u64,
    nanos: u32,
    ins: Seq<EntryView>,
    outs: Seq<EntryView>,
)
    requires
        entries_view_wf(ins),
        entries_view_wf(outs),
        nanos < 1000000000,
    ensures
        spec_parse_block_tail3(s, i, index, prev, merkle, secs, nanos, ins, outs) matches Some(v)
            ==> block_view_wf(v),
{
}

proof fn lemma_parse_block_tail2_wf(
    s: Seq<char>,
    i: int,
    index: u64,
    prev: Option<Seq<char>>,
    merkle: Seq<char>,
    secs: u64,
    nanos: u32,
    ins: Seq<EntryView>,
)
    requires
        entries_view_wf(ins),
        nanos < 1000000000,
    ensures
        spec_parse_block_tail2(s, i, index, prev, merkle, secs, nanos, ins) matches Some(v)
            ==> block_view_wf(v),
{
    match expect(s, i, lit_outputs()) {
        None => {},
        Some(i1) => {
            lemma_parse_entries_wf(s, i1);
            match spec_parse_entries(s, i1) {
                None => {},
                Some((outs, i2)) => {
                    lemma_parse_block_tail3_wf(
                        s,
                        i2,
                        index,
                        prev,
                        merkle,
                        secs,
                        nanos,
                        ins,
                        outs,
                    );
                },
            }
        },
    }
}

proof fn lemma_parse_block_tail_wf(
    s: Seq<char>,
    i: int,
    index: u64,
    prev: Option<Seq<char>>,
    merkle: Seq<char>,
    secs: u64,
    nanos: u32,
)
    requires
        nanos < 1000000000,
    ensures
        spec_parse_block_tail(s, i, index, prev, merkle, secs, nanos) matches Some(v)
            ==> block_view_wf(v),
{
    match expect(s, i, lit_txns()) {
        None => {},
        Some(i1) => {
            lemma_parse_entries_wf(s, i1);
            match spec_parse_entries(s, i1) {
                None => {},
                Some((ins, i2)) => {
                    lemma_parse_block_tail2_wf(s, i2, index, prev, merkle, secs, nanos, ins);
                },
            }
        },
    }
}

proof fn lemma_parse_block_mid3_wf(
    s: Seq<char>,
    i: int,
    index: u64,
    prev: Option<Seq<char>>,
    merkle: Seq<char>,
)
    ensures
        spec_parse_block_mid3(s, i, index, prev, merkle) matches Some(v) ==> block_view_wf(v),
{
    match expect(s, i, lit_created()) {
        None => {},
        Some(i1) => {
            match spec_parse_created(s, i1) {
                None => {},
                Some((created, i2)) => {
                    lemma_parse_block_tail_wf(s, i2, index, prev, merkle, created.0, created.1);
                },
            }
        },
    }
}

proof fn lemma_parse_block_mid2_wf(s: Seq<char>, i: int, index: u64, prev: Option<Seq<char>>)
    ensures
        spec_parse_block_mid2(s, i, index, prev) matches Some(v) ==> block_view_wf(v),
{
    match expect(s, i, lit_merkle()) {
        None => {},
        Some(i1) => {
            match spec_parse_string(s, i1) {
                None => {},
                Some((merkle, i2)) => {
                    lemma_parse_block_mid3_wf(s, i2, index, prev, merkle);
                },
            }
        },
    }
}

proof fn lemma_parse_block_mid_wf(s: Seq<char>, i: int, index: u64)
    ensures
        spec_parse_block_mid(s, i, index) matches Some(v) ==> block_view_wf(v),
{
    match expect(s, i, lit_header()) {
        None => {},
        Some(i1) => {
            match spec_parse_prev(s, i1) {
                None => {},
                Some((prev, i2)) => {
                    lemma_parse_block_mid2_wf(s, i2, index, prev);
                },
            }
        },
    }
}

/// Every block the parser returns is well formed: its amounts are in range
/// and not negative, its leftover nanoseconds below a second.
pub proof fn lemma_parse_block_wf(s: Seq<char>)
    ensures
        spec_parse_block(s) matches Some(v) ==> block_view_wf(v),
{
    reveal(spec_parse_block);
    match expect(s, 0, lit_index()) {
        None => {},
        Some(i1) => {
            match spec_parse_u64(s, i1) {
                None => {},
                Some((index, i2)) => {
                    lemma_parse_block_mid_wf(s, i2, index);
                },
            }
        },
    }
}


/// Read an amount from its decimal text: an optional sign, the whole part,
/// and an optional point whose fractional digits set the scale.
pub fn parse_amount(s: &str) -> (r: Option<Amount>)
    ensures
        match r {
            Some(a) => spec_parse_amount(s@) == Some(a) && amount_wf(a),
            None => spec_parse_amount(s@) is None,
        },
{
    let cs = str_chars(s);
    exec_parse_amount(&cs)
}

} // verus!
