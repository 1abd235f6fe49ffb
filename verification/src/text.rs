//! Textual forms of the coordinate types, bit-exact:
//!
//! - `Extent`: `{label: size, ...}` (empty extent prints as `{}`)
//! - `Point`: `label=coord/size,...`
//! - `Region`: `[offset+]label=size/stride,...`, with the offset prefix
//!   omitted when zero
//!
//! Labels print bare when they consist only of `[A-Za-z0-9_]`, and otherwise
//! as quoted string literals with `"`, `\`, newline, carriage return, and
//! tab escaped. The region parser accepts exactly this grammar back.

use vstd::prelude::*;

verus! {

use crate::extent::Extent;
use crate::point::Point;
use crate::region::Region;
use crate::slice::seq_int;
use crate::slice::Slice;
use crate::slice::SliceError;

/// A character a label may contain while still printing bare:
/// ASCII alphanumeric or underscore.
pub open spec fn is_word_char(c: char) -> bool {
    let u = c as u32;
    (48 <= u <= 57) || (65 <= u <= 90) || (97 <= u <= 122) || u == 95
}

/// A label that prints without quotes: every character is a word character.
pub open spec fn spec_safe_ident(cs: Seq<char>) -> bool {
    forall|i: int| 0 <= i < cs.len() ==> is_word_char(#[trigger] cs[i])
}

/// The escaped body of a quoted label.
pub open spec fn escape_text(cs: Seq<char>) -> Seq<char>
    decreases cs.len(),
{
    if cs.len() == 0 {
        Seq::empty()
    } else {
        escape_char(cs.first()) + escape_text(cs.skip(1))
    }
}

/// How one character prints inside a quoted label.
pub open spec fn escape_char(c: char) -> Seq<char> {
    if c == '"' {
        seq!['\\', '"']
    } else if c == '\\' {
        seq!['\\', '\\']
    } else if c == '\n' {
        seq!['\\', 'n']
    } else if c == '\r' {
        seq!['\\', 'r']
    } else if c == '\t' {
        seq!['\\', 't']
    } else {
        seq![c]
    }
}

/// How a label prints: bare when safe, quoted otherwise.
pub open spec fn label_text(cs: Seq<char>) -> Seq<char> {
    if spec_safe_ident(cs) {
        cs
    } else {
        seq!['"'] + escape_text(cs) + seq!['"']
    }
}

/// The decimal digit character for `d` in `0..10`.
pub open spec fn digit_char(d: int) -> char {
    ((48 + d) as u8) as char
}

/// The decimal text of a nonnegative number.
pub open spec fn dec_text(n: int) -> Seq<char>
    decreases n,
{
    if n < 10 {
        seq![digit_char(n)]
    } else {
        dec_text(n / 10) + seq![digit_char(n % 10)]
    }
}


/// The numeric value of a digit string (most significant first).
pub open spec fn dec_val(cs: Seq<char>) -> int
    decreases cs.len(),
{
    if cs.len() == 0 {
        0
    } else {
        dec_val(cs.drop_last()) * 10 + (cs.last() as u32 - 48)
    }
}

/// Every character of a decimal rendering is a digit.
pub proof fn lemma_dec_text_digits(n: int)
    requires
        n >= 0,
    ensures
        forall|i: int| 0 <= i < dec_text(n).len()
            ==> 48 <= (#[trigger] dec_text(n)[i]) as u32 <= 57,
        dec_text(n).len() >= 1,
    decreases n,
{
    if n < 10 {
        assert(dec_text(n) == seq![digit_char(n)]);
        assert(digit_char(n) as u32 == 48 + n);
    } else {
        lemma_dec_text_digits(n / 10);
        let d = n % 10;
        assert(digit_char(d) as u32 == 48 + d);
        assert forall|i: int| 0 <= i < dec_text(n).len() implies
            48 <= (#[trigger] dec_text(n)[i]) as u32 <= 57 by {
            if i < dec_text(n / 10).len() {
                assert(dec_text(n)[i] == dec_text(n / 10)[i]);
            } else {
                assert(dec_text(n)[i] == digit_char(d));
            }
        }
    }
}

/// Law: printing a number and reading the digits back gives the number.
pub proof fn lemma_decimal_roundtrip(n: int)
    requires
        n >= 0,
    ensures
        dec_val(dec_text(n)) == n,
    decreases n,
{
    reveal_with_fuel(dec_val, 2);
    if n < 10 {
        assert(dec_text(n) == seq![digit_char(n)]);
        assert(seq![digit_char(n)].drop_last() =~= Seq::<char>::empty());
        assert(digit_char(n) as u32 == 48 + n);
    } else {
        lemma_decimal_roundtrip(n / 10);
        let d = n % 10;
        assert(dec_text(n) == dec_text(n / 10) + seq![digit_char(d)]);
        assert((dec_text(n / 10) + seq![digit_char(d)]).drop_last() =~= dec_text(n / 10));
        assert((dec_text(n / 10) + seq![digit_char(d)]).last() == digit_char(d));
        assert(digit_char(d) as u32 == 48 + d);
        vstd::arithmetic::div_mod::lemma_fundamental_div_mod(n, 10);
    }
}

/// The value of a digit string only grows as digits are appended.
pub proof fn lemma_dec_val_nonneg(cs: Seq<char>)
    requires
        forall|i: int| 0 <= i < cs.len() ==> 48 <= (#[trigger] cs[i]) as u32 <= 57,
    ensures
        dec_val(cs) >= 0,
        cs.len() > 0 ==> dec_val(cs) >= dec_val(cs.drop_last()),
    decreases cs.len(),
{
    if cs.len() > 0 {
        assert forall|i: int| 0 <= i < cs.drop_last().len() implies
            48 <= (#[trigger] cs.drop_last()[i]) as u32 <= 57 by {
            assert(cs.drop_last()[i] == cs[i]);
        }
        lemma_dec_val_nonneg(cs.drop_last());
        assert(dec_val(cs.drop_last()) * 10 >= dec_val(cs.drop_last())) by (nonlinear_arith)
            requires dec_val(cs.drop_last()) >= 0;
    }
}

/// A prefix of a digit string never exceeds the whole string in value.
pub proof fn lemma_dec_val_prefix_le(cs: Seq<char>, i: int)
    requires
        forall|t: int| 0 <= t < cs.len() ==> 48 <= (#[trigger] cs[t]) as u32 <= 57,
        0 <= i <= cs.len(),
    ensures
        dec_val(cs.subrange(0, i)) <= dec_val(cs),
    decreases cs.len() - i,
{
    if i == cs.len() {
        assert(cs.subrange(0, i) =~= cs);
    } else {
        lemma_dec_val_prefix_le(cs, i + 1);
        let longer = cs.subrange(0, i + 1);
        assert forall|t: int| 0 <= t < longer.len() implies
            48 <= (#[trigger] longer[t]) as u32 <= 57 by {
            assert(longer[t] == cs[t]);
        }
        lemma_dec_val_nonneg(longer);
        assert(longer.drop_last() =~= cs.subrange(0, i));
    }
}

/// The printed form of a region: `[offset+]label=size/stride,...`.
pub open spec fn region_text(labels: Seq<Seq<char>>, offset: int, sizes: Seq<int>, strides: Seq<int>) -> Seq<char> {
    let prefix: Seq<char> = if offset != 0 { dec_text(offset) + seq!['+'] } else { Seq::empty() };
    prefix + region_pairs_text(labels, sizes, strides, 0)
}

/// The comma-joined `label=size/stride` pairs from dimension `i` on.
pub open spec fn region_pairs_text(labels: Seq<Seq<char>>, sizes: Seq<int>, strides: Seq<int>, i: int) -> Seq<char>
    decreases labels.len() - i,
{
    if i < 0 || i >= labels.len() {
        Seq::empty()
    } else {
        let pair = label_text(labels[i]) + seq!['='] + dec_text(sizes[i]) + seq!['/'] + dec_text(strides[i]);
        if i + 1 == labels.len() {
            pair
        } else {
            pair + seq![','] + region_pairs_text(labels, sizes, strides, i + 1)
        }
    }
}

/// The printed form of an extent: `{label: size, ...}`.
pub open spec fn extent_text(labels: Seq<Seq<char>>, sizes: Seq<int>) -> Seq<char> {
    seq!['{'] + extent_pairs_text(labels, sizes, 0) + seq!['}']
}

/// The comma-joined `label: size` pairs from dimension `i` on.
pub open spec fn extent_pairs_text(labels: Seq<Seq<char>>, sizes: Seq<int>, i: int) -> Seq<char>
    decreases labels.len() - i,
{
    if i < 0 || i >= labels.len() {
        Seq::empty()
    } else {
        let pair = label_text(labels[i]) + seq![':', ' '] + dec_text(sizes[i]);
        if i + 1 == labels.len() {
            pair
        } else {
            pair + seq![',', ' '] + extent_pairs_text(labels, sizes, i + 1)
        }
    }
}

/// The printed form of a point: `label=coord/size,...`.
pub open spec fn point_text(labels: Seq<Seq<char>>, coords: Seq<int>, sizes: Seq<int>, i: int) -> Seq<char>
    decreases labels.len() - i,
{
    if i < 0 || i >= labels.len() {
        Seq::empty()
    } else {
        let pair = label_text(labels[i]) + seq!['='] + dec_text(coords[i]) + seq!['/'] + dec_text(sizes[i]);
        if i + 1 == labels.len() {
            pair
        } else {
            pair + seq![','] + point_text(labels, coords, sizes, i + 1)
        }
    }
}

/// The characters of `s`, in order.
///
/// Relies on `str::chars`: the iterator yields exactly the characters of the
/// string's view, in order.
#[verifier::external_body]
pub fn chars_of(s: &str) -> (r: Vec<char>)
    ensures
        r@ == s@,
{
    s.chars().collect()
}

/// The string holding exactly the given characters.
///
/// Relies on `String`'s `FromIterator<char>` implementation: collecting
/// characters yields the string of those characters in order.
#[verifier::external_body]
pub fn string_of(cs: &Vec<char>) -> (r: String)
    ensures
        r@ == cs@,
{
    cs.iter().collect()
}

/// Appends all of `src` to `dst`.
fn push_all(dst: &mut Vec<char>, src: &Vec<char>)
    ensures
        final(dst)@ == old(dst)@ + src@,
{
    let n = src.len();
    let mut i: usize = 0;
    while i < n
        invariant
            i <= n,
            n == src@.len(),
            dst@ == old(dst)@ + src@.take(i as int),
        decreases n - i,
    {
        dst.push(src[i]);
        i = i + 1;
        proof {
            assert(dst@ =~= old(dst)@ + src@.take(i as int));
        }
    }
    proof {
        assert(old(dst)@ + src@.take(n as int) =~= old(dst)@ + src@);
    }
}

/// Whether every character of `s` is ASCII alphanumeric or `_`, so that it
/// can be displayed without quotes.
pub fn is_safe_ident(s: &str) -> (r: bool)
    ensures
        r == spec_safe_ident(s@),
{
    let cs = chars_of(s);
    let n = cs.len();
    let mut i: usize = 0;
    while i < n
        invariant
            i <= n,
            n == cs@.len(),
            cs@ == s@,
            forall|t: int| 0 <= t < i ==> is_word_char(#[trigger] cs@[t]),
        decreases n - i,
    {
        let u = cs[i] as u32;
        let ok = (48 <= u && u <= 57) || (65 <= u && u <= 90) || (97 <= u && u <= 122) || u == 95;
        if !ok {
            assert(!is_word_char(cs@[i as int]));
            return false;
        }
        assert(is_word_char(cs@[i as int]));
        i = i + 1;
    }
    true
}

/// A label as it displays: unchanged when safe, quoted and escaped
/// otherwise.
pub fn fmt_label(s: &str) -> (r: String)
    ensures
        r@ == label_text(s@),
{
    let cs = label_chars(s);
    string_of(&cs)
}

/// The decimal digit character for `d` in `0..10`.
fn digit_of(d: usize) -> (r: char)
    requires
        d < 10,
    ensures
        r == digit_char(d as int),
{
    (48 + d as u8) as char
}

/// The decimal text of `n`.
#[verifier::loop_isolation(false)]
pub fn decimal_chars(n: usize) -> (r: Vec<char>)
    ensures
        r@ == dec_text(n as int),
{
    let mut tmp: Vec<char> = Vec::new();
    let mut m: usize = n;
    while m >= 10
        invariant
            dec_text(n as int) == dec_text(m as int) + tmp@,
        decreases m,
    {
        let d = m % 10;
        tmp.insert(0, digit_of(d));
        m = m / 10;
        proof {
            assert(dec_text(n as int) =~= dec_text(m as int) + tmp@);
        }
    }
    tmp.insert(0, digit_of(m));
    proof {
        assert(dec_text(m as int) == seq![digit_char(m as int)]);
        assert(tmp@ =~= dec_text(n as int));
    }
    tmp
}

/// The characters a label displays as: bare when safe, quoted otherwise.
#[verifier::loop_isolation(false)]
pub fn label_chars(s: &str) -> (r: Vec<char>)
    ensures
        r@ == label_text(s@),
{
    let cs = chars_of(s);
    if is_safe_ident(s) {
        return cs;
    }
    let mut out: Vec<char> = Vec::new();
    out.push('"');
    let n = cs.len();
    let mut i: usize = 0;
    proof {
        assert(out@ =~= seq!['"'] + escape_text(cs@.take(0)));
        assert(escape_text(cs@.take(0)) =~= Seq::<char>::empty());
    }
    while i < n
        invariant
            i <= n,
            n == cs@.len(),
            cs@ == s@,
            out@ == seq!['"'] + escape_text(cs@.take(i as int)),
        decreases n - i,
    {
        let c = cs[i];
        if c == '"' {
            out.push('\\');
            out.push('"');
        } else if c == '\\' {
            out.push('\\');
            out.push('\\');
        } else if c == '\n' {
            out.push('\\');
            out.push('n');
        } else if c == '\r' {
            out.push('\\');
            out.push('r');
        } else if c == '\t' {
            out.push('\\');
            out.push('t');
        } else {
            out.push(c);
        }
        i = i + 1;
        proof {
            lemma_escape_step(cs@, i as int);
            assert(out@ =~= seq!['"'] + escape_text(cs@.take(i as int)));
        }
    }
    out.push('"');
    proof {
        assert(cs@.take(n as int) =~= cs@);
        assert(out@ =~= seq!['"'] + escape_text(cs@) + seq!['"']);
    }
    out
}

/// One step of escaping: the escape of a prefix extended by one character.
proof fn lemma_escape_step(cs: Seq<char>, i: int)
    requires
        0 < i <= cs.len(),
    ensures
        escape_text(cs.take(i)) == escape_text(cs.take(i - 1)) + escape_char(cs[i - 1]),
    decreases i,
{
    lemma_escape_snoc(cs.take(i - 1), cs[i - 1]);
    assert(cs.take(i - 1).push(cs[i - 1]) =~= cs.take(i));
}

/// Escaping distributes over appending one character.
proof fn lemma_escape_snoc(cs: Seq<char>, c: char)
    ensures
        escape_text(cs.push(c)) == escape_text(cs) + escape_char(c),
    decreases cs.len(),
{
    if cs.len() == 0 {
        assert(cs.push(c).skip(1) =~= Seq::<char>::empty());
        assert(cs.push(c).first() == c);
        assert(escape_text(cs.push(c)) == escape_char(c) + escape_text(Seq::<char>::empty()));
        assert(escape_char(c) + Seq::<char>::empty() =~= escape_char(c));
        assert(escape_text(cs) + escape_char(c) =~= escape_char(c));
    } else {
        assert(cs.push(c).skip(1) =~= cs.skip(1).push(c));
        assert(cs.push(c).first() == cs.first());
        lemma_escape_snoc(cs.skip(1), c);
        assert(escape_text(cs.push(c))
            == escape_char(cs.first()) + (escape_text(cs.skip(1)) + escape_char(c)));
        assert(escape_char(cs.first()) + (escape_text(cs.skip(1)) + escape_char(c))
            =~= (escape_char(cs.first()) + escape_text(cs.skip(1))) + escape_char(c));
    }
}

/// Escaping distributes over splitting a label at `k`.
proof fn lemma_escape_split(cs: Seq<char>, k: int)
    requires
        0 <= k <= cs.len(),
    ensures
        escape_text(cs) == escape_text(cs.take(k)) + escape_text(cs.skip(k)),
    decreases k,
{
    if k == 0 {
        assert(cs.take(0) =~= Seq::<char>::empty());
        assert(cs.skip(0) =~= cs);
        assert(escape_text(cs.take(0)) + escape_text(cs) =~= escape_text(cs));
    } else {
        lemma_escape_split(cs.skip(1), k - 1);
        assert(cs.skip(1).take(k - 1) =~= cs.take(k).skip(1));
        assert(cs.skip(1).skip(k - 1) =~= cs.skip(k));
        assert(escape_text(cs.take(k))
            == escape_char(cs.take(k).first()) + escape_text(cs.take(k).skip(1)));
        assert(cs.take(k).first() == cs.first());
        assert(escape_char(cs.first()) + (escape_text(cs.take(k).skip(1)) + escape_text(cs.skip(k)))
            =~= (escape_char(cs.first()) + escape_text(cs.take(k).skip(1))) + escape_text(cs.skip(k)));
    }
}

/// Escape bodies are at least as long as what they escape, and no shorter
/// than one character per escaped character.
proof fn lemma_escape_len(cs: Seq<char>)
    ensures
        escape_text(cs).len() >= cs.len(),
    decreases cs.len(),
{
    if cs.len() > 0 {
        lemma_escape_len(cs.skip(1));
    }
}

/// At position `k` of a quoted label: the escape of `lab[k]` stands in the
/// stream right after the escapes of the earlier characters.
proof fn lemma_quoted_char(s: Seq<char>, q: int, lab: Seq<char>, k: int)
    requires
        quoted_at(s, q, lab),
        0 <= k < lab.len(),
    ensures
        ({
            let i = q + 1 + escape_text(lab.take(k)).len();
            let c = lab[k];
            &&& escape_text(lab.take(k)).len() + escape_char(c).len() <= escape_text(lab).len()
            &&& i + escape_char(c).len() <= q + 1 + escape_text(lab).len()
            &&& if c == '"' || c == '\\' || c == '\n' || c == '\r' || c == '\t' {
                &&& escape_char(c).len() == 2
                &&& s[i] == '\\'
                &&& s[i + 1] == escape_char(c)[1]
            } else {
                &&& escape_char(c).len() == 1
                &&& s[i] == c
            }
        }),
{
    lemma_escape_split(lab, k);
    let head = escape_text(lab.take(k));
    let rest = lab.skip(k);
    assert(rest.first() == lab[k]);
    assert(escape_text(rest) == escape_char(lab[k]) + escape_text(rest.skip(1)));
    lemma_escape_len(rest.skip(1));
    let body = escape_text(lab);
    assert(body == head + (escape_char(lab[k]) + escape_text(rest.skip(1))));
    assert forall|t: int| 0 <= t < escape_char(lab[k]).len() implies
        #[trigger] body[head.len() + t] == escape_char(lab[k])[t] by {
        assert(body[head.len() + t] == (escape_char(lab[k]) + escape_text(rest.skip(1)))[t]);
    }
    assert forall|t: int| 0 <= t < body.len() implies #[trigger] s[q + 1 + t] == body[t] by {
        assert(s.subrange(q + 1, q + 1 + body.len() as int)[t] == s[q + 1 + t]);
    }
    let i = q + 1 + head.len();
    assert(s[i] == body[head.len() as int]) by {
        assert(s[q + 1 + head.len() as int] == body[head.len() as int]);
    }
    assert(body[head.len() as int] == escape_char(lab[k])[0]);
    if escape_char(lab[k]).len() == 2 {
        assert(s[i + 1] == body[head.len() as int + 1]) by {
            assert(s[q + 1 + (head.len() as int + 1)] == body[head.len() as int + 1]);
        }
        assert(body[head.len() as int + 1] == escape_char(lab[k])[1]);
    }
}

/// The characters of `lab`, escaped and quoted, stand at `q` in `s`.
pub open spec fn quoted_at(s: Seq<char>, q: int, lab: Seq<char>) -> bool {
    &&& 0 <= q
    &&& q + 2 + escape_text(lab).len() <= s.len()
    &&& s[q] == '"'
    &&& s.subrange(q + 1, q + 1 + escape_text(lab).len() as int) == escape_text(lab)
    &&& s[q + 1 + escape_text(lab).len()] == '"'
}

impl Region {
    /// The exact characters this region displays as.
    pub open spec fn text(&self) -> Seq<char> {
        region_text(
            self.labels_view(),
            self.slice.spec_offset(),
            self.slice.sizes_int(),
            self.slice.strides_int(),
        )
    }

    /// Renders this region as `[offset+]label=size/stride,...`, the offset
    /// prefix appearing only when nonzero.
    #[verifier::loop_isolation(false)]
    #[verifier::rlimit(80)]
    #[verifier::spinoff_prover]
    pub fn to_string(&self) -> (r: String)
        requires
            self.wf(),
        ensures
            r@ == self.text(),
    {
        let ghost lv = self.labels_view();
        let ghost szs = self.slice.sizes_int();
        let ghost sts = self.slice.strides_int();
        let mut out: Vec<char> = Vec::new();
        if self.slice.offset() != 0 {
            let ds = decimal_chars(self.slice.offset());
            push_all(&mut out, &ds);
            out.push('+');
        }
        let ghost prefix = out@;
        proof {
            assert(prefix == if self.slice.spec_offset() != 0 {
                dec_text(self.slice.spec_offset()) + seq!['+']
            } else {
                Seq::<char>::empty()
            }) by {
                if self.slice.spec_offset() != 0 {
                    assert(out@ =~= dec_text(self.slice.spec_offset()) + seq!['+']);
                } else {
                    assert(out@ =~= Seq::<char>::empty());
                }
            }
        }
        let n = self.labels.len();
        let mut i: usize = 0;
        while i < n
            invariant
                i <= n,
                n == self.labels.len() == self.slice.sizes.len() == self.slice.strides.len(),
                prefix + region_pairs_text(lv, szs, sts, 0)
                    == out@ + region_pairs_text(lv, szs, sts, i as int),
            decreases n - i,
        {
            let lc = label_chars(self.labels[i].as_str());
            push_all(&mut out, &lc);
            out.push('=');
            let sc = decimal_chars(self.slice.sizes[i]);
            push_all(&mut out, &sc);
            out.push('/');
            let tc = decimal_chars(self.slice.strides[i]);
            push_all(&mut out, &tc);
            if i + 1 != n {
                out.push(',');
            }
            let ghost iold = i as int;
            i = i + 1;
            proof {
                assert(lv[iold] == self.labels@[iold]@);
                assert(szs[iold] == self.slice.sizes@[iold] as int);
                assert(sts[iold] == self.slice.strides@[iold] as int);
                if iold + 1 == n {
                    assert(region_pairs_text(lv, szs, sts, iold)
                        == label_text(lv[iold]) + seq!['='] + dec_text(szs[iold]) + seq!['/']
                            + dec_text(sts[iold]));
                    assert(region_pairs_text(lv, szs, sts, i as int) =~= Seq::<char>::empty());
                } else {
                    assert(region_pairs_text(lv, szs, sts, iold)
                        == (label_text(lv[iold]) + seq!['='] + dec_text(szs[iold]) + seq!['/']
                            + dec_text(sts[iold])) + seq![',']
                            + region_pairs_text(lv, szs, sts, i as int));
                }
                assert(prefix + region_pairs_text(lv, szs, sts, 0)
                    =~= out@ + region_pairs_text(lv, szs, sts, i as int));
            }
        }
        proof {
            assert(region_pairs_text(lv, szs, sts, n as int) =~= Seq::<char>::empty());
            assert(out@ =~= prefix + region_pairs_text(lv, szs, sts, 0));
            assert(out@ =~= self.text());
        }
        string_of(&out)
    }
}


impl Extent {
    /// The exact characters this extent displays as.
    pub open spec fn text(&self) -> Seq<char> {
        extent_text(self.labels_view(), self.sizes_int())
    }

    /// Renders this extent as `{label: size, ...}`; the empty extent prints
    /// as `{}`.
    #[verifier::loop_isolation(false)]
    #[verifier::rlimit(80)]
    #[verifier::spinoff_prover]
    pub fn to_string(&self) -> (r: String)
        requires
            self.labels.len() == self.sizes.len(),
        ensures
            r@ == self.text(),
    {
        let ghost lv = self.labels_view();
        let ghost szs = self.sizes_int();
        let mut out: Vec<char> = Vec::new();
        out.push('{');
        let ghost prefix = out@;
        let n = self.labels.len();
        let mut i: usize = 0;
        while i < n
            invariant
                i <= n,
                n == self.labels.len() == self.sizes.len(),
                prefix == seq!['{'],
                prefix + extent_pairs_text(lv, szs, 0)
                    == out@ + extent_pairs_text(lv, szs, i as int),
            decreases n - i,
        {
            let lc = label_chars(self.labels[i].as_str());
            push_all(&mut out, &lc);
            out.push(':');
            out.push(' ');
            let sc = decimal_chars(self.sizes[i]);
            push_all(&mut out, &sc);
            if i + 1 != n {
                out.push(',');
                out.push(' ');
            }
            let ghost iold = i as int;
            i = i + 1;
            proof {
                assert(lv[iold] == self.labels@[iold]@);
                assert(szs[iold] == self.sizes@[iold] as int);
                if iold + 1 == n {
                    assert(extent_pairs_text(lv, szs, i as int) =~= Seq::<char>::empty());
                }
                assert(prefix + extent_pairs_text(lv, szs, 0)
                    =~= out@ + extent_pairs_text(lv, szs, i as int));
            }
        }
        out.push('}');
        proof {
            assert(extent_pairs_text(lv, szs, n as int) =~= Seq::<char>::empty());
            assert(out@ =~= seq!['{'] + extent_pairs_text(lv, szs, 0) + seq!['}']);
        }
        string_of(&out)
    }
}

impl Point {
    /// The exact characters this point displays as.
    pub open spec fn text(&self) -> Seq<char> {
        point_text(
            self.extent.labels_view(),
            self.spec_coords(),
            self.extent.sizes_int(),
            0,
        )
    }

    /// Renders this point as `label=coord/size,...`; a point in the
    /// 0-dimensional extent prints as the empty string.
    #[verifier::loop_isolation(false)]
    #[verifier::rlimit(80)]
    #[verifier::spinoff_prover]
    pub fn to_string(&self) -> (r: String)
        requires
            self.wf(),
            self.extent.labels.len() == self.extent.sizes.len(),
        ensures
            r@ == self.text(),
    {
        let ghost lv = self.extent.labels_view();
        let ghost szs = self.extent.sizes_int();
        let ghost cds = self.spec_coords();
        let coords = self.coords();
        let mut out: Vec<char> = Vec::new();
        let n = self.extent.labels.len();
        let mut i: usize = 0;
        while i < n
            invariant
                i <= n,
                n == self.extent.labels.len() == self.extent.sizes.len() == coords@.len(),
                seq_int(coords@) == cds,
                point_text(lv, cds, szs, 0) == out@ + point_text(lv, cds, szs, i as int),
            decreases n - i,
        {
            let lc = label_chars(self.extent.labels[i].as_str());
            push_all(&mut out, &lc);
            out.push('=');
            let cc = decimal_chars(coords[i]);
            push_all(&mut out, &cc);
            out.push('/');
            let sc = decimal_chars(self.extent.sizes[i]);
            push_all(&mut out, &sc);
            if i + 1 != n {
                out.push(',');
            }
            let ghost iold = i as int;
            i = i + 1;
            proof {
                assert(lv[iold] == self.extent.labels@[iold]@);
                assert(szs[iold] == self.extent.sizes@[iold] as int);
                assert(cds[iold] == coords@[iold] as int);
                if iold + 1 == n {
                    assert(point_text(lv, cds, szs, i as int) =~= Seq::<char>::empty());
                }
                assert(point_text(lv, cds, szs, 0)
                    =~= out@ + point_text(lv, cds, szs, i as int));
            }
        }
        proof {
            assert(point_text(lv, cds, szs, n as int) =~= Seq::<char>::empty());
            assert(out@ =~= point_text(lv, cds, szs, 0));
        }
        string_of(&out)
    }
}

/// Errors from parsing the textual form of a region.
#[derive(Debug, Clone, PartialEq, Eq)]
pub enum RegionParseError {
    /// The input deviates from the `[offset+]label=size/stride,...` grammar
    /// at the given character position.
    Syntax { at: usize },
    /// A number in the input does not fit in `usize`.
    Number { at: usize },
    /// The parsed dimensions do not form a valid slice.
    SliceError(SliceError),
}

/// Where the maximal run of digit characters starting at `pos` ends.
pub open spec fn digit_run_end(cs: Seq<char>, pos: int) -> int
    decreases cs.len() - pos,
{
    if pos < 0 || pos >= cs.len() || !(48 <= cs[pos] as u32 <= 57) {
        pos
    } else {
        digit_run_end(cs, pos + 1)
    }
}

/// True iff the character at `i` is a decimal digit.
fn digit_at(cs: &Vec<char>, i: usize) -> (r: bool)
    requires
        i < cs@.len(),
    ensures
        r == (48 <= cs@[i as int] as u32 <= 57),
{
    let u = cs[i] as u32;
    48 <= u && u <= 57
}

/// True iff `c` separates tokens of the region grammar.
pub open spec fn spec_delimiter(c: char) -> bool {
    c == '+' || c == '=' || c == ',' || c == '/'
}

/// Where the maximal run of non-delimiter characters starting at `pos` ends.
pub open spec fn token_run_end(cs: Seq<char>, pos: int) -> int
    decreases cs.len() - pos,
{
    if pos < 0 || pos >= cs.len() || spec_delimiter(cs[pos]) {
        pos
    } else {
        token_run_end(cs, pos + 1)
    }
}

/// The maximal token run ends within the string, at a delimiter or its end.
pub proof fn lemma_token_run_facts(cs: Seq<char>, pos: int)
    requires
        0 <= pos <= cs.len(),
    ensures
        pos <= token_run_end(cs, pos) <= cs.len(),
        token_run_end(cs, pos) < cs.len() ==> spec_delimiter(cs[token_run_end(cs, pos)]),
    decreases cs.len() - pos,
{
    if pos < cs.len() && !spec_delimiter(cs[pos]) {
        lemma_token_run_facts(cs, pos + 1);
    }
}

/// A position after non-delimiters continues the same token run.
proof fn lemma_token_run_step(cs: Seq<char>, pos: int, mid: int)
    requires
        0 <= pos <= mid <= cs.len(),
        forall|t: int| pos <= t < mid ==> !spec_delimiter(#[trigger] cs[t]),
    ensures
        token_run_end(cs, pos) == token_run_end(cs, mid),
    decreases mid - pos,
{
    if pos < mid {
        assert(!spec_delimiter(cs[pos]));
        lemma_token_run_step(cs, pos + 1, mid);
    }
}

/// Every position strictly inside a maximal token run is a non-delimiter.
proof fn lemma_token_run_in(cs: Seq<char>, pos: int, mid: int)
    requires
        0 <= pos <= mid < token_run_end(cs, pos),
        token_run_end(cs, pos) <= cs.len(),
    ensures
        !spec_delimiter(cs[mid]),
    decreases mid - pos,
{
    assert(!spec_delimiter(cs[pos])) by {
        if !(pos < cs.len() && !spec_delimiter(cs[pos])) {
            assert(token_run_end(cs, pos) == pos);
        }
    }
    if pos < mid {
        lemma_token_run_in(cs, pos + 1, mid);
    }
}

fn is_delimiter(c: char) -> (r: bool)
    ensures
        r == (c == '+' || c == '=' || c == ',' || c == '/'),
{
    c == '+' || c == '=' || c == ',' || c == '/'
}

/// Reads a decimal number starting at `pos`: consumes exactly the maximal
/// digit run, whose value it returns. A missing digit or a value that does
/// not fit in `usize` is an error, exactly.
#[verifier::loop_isolation(false)]
fn parse_number(cs: &Vec<char>, pos: usize) -> (r: Result<(usize, usize), RegionParseError>)
    requires
        pos <= cs@.len(),
    ensures
        match r {
            Ok((v, end)) => {
                &&& pos < end <= cs@.len()
                &&& end == digit_run_end(cs@, pos as int)
                &&& v == dec_val(cs@.subrange(pos as int, end as int))
            },
            Err(RegionParseError::Syntax { at }) => {
                &&& at == pos
                &&& digit_run_end(cs@, pos as int) == pos
            },
            Err(RegionParseError::Number { at }) => {
                &&& at == pos
                &&& dec_val(cs@.subrange(pos as int, digit_run_end(cs@, pos as int))) > usize::MAX
            },
            Err(_) => false,
        },
{
    let ghost run_end = digit_run_end(cs@, pos as int);
    proof {
        lemma_digit_run_facts(cs@, pos as int);
        assert(cs@.subrange(pos as int, pos as int) =~= Seq::<char>::empty());
    }
    let n = cs.len();
    let mut end = pos;
    let mut value: usize = 0;
    while end < n && digit_at(cs, end)
        invariant
            pos <= end <= run_end,
            value == dec_val(cs@.subrange(pos as int, end as int)),
            forall|t: int| pos <= t < end ==> 48 <= (#[trigger] cs@[t]) as u32 <= 57,
        decreases n - end,
    {
        proof {
            assert(48 <= cs@[end as int] as u32 <= 57);
            assert(end < run_end) by {
                lemma_digit_run_facts(cs@, end as int);
                lemma_digit_run_step(cs@, pos as int, end as int);
            }
            lemma_dec_val_run_digits(cs@, pos as int, end + 1);
            assert(cs@.subrange(pos as int, end + 1).drop_last()
                =~= cs@.subrange(pos as int, end as int));
            assert(cs@.subrange(pos as int, end + 1).last() == cs@[end as int]);
            lemma_dec_val_run_digits(cs@, pos as int, run_end);
            lemma_dec_val_prefix_within(cs@, pos as int, end + 1, run_end);
        }
        let d = (cs[end] as u32 - 48) as usize;
        value = match value.checked_mul(10) {
            Some(v) => v,
            None => {
                proof {
                    assert(dec_val(cs@.subrange(pos as int, run_end)) > usize::MAX)
                        by (nonlinear_arith)
                        requires
                            value * 10 > usize::MAX,
                            0 <= d < 10,
                            dec_val(cs@.subrange(pos as int, end + 1)) == value * 10 + d,
                            dec_val(cs@.subrange(pos as int, end + 1))
                                <= dec_val(cs@.subrange(pos as int, run_end));
                }
                return Err(RegionParseError::Number { at: pos });
            }
        };
        value = match value.checked_add(d) {
            Some(v) => v,
            None => {
                proof {
                    assert(dec_val(cs@.subrange(pos as int, run_end)) > usize::MAX);
                }
                return Err(RegionParseError::Number { at: pos });
            }
        };
        end = end + 1;
    }
    proof {
        assert(end == run_end) by {
            if end < run_end {
                lemma_digit_run_in(cs@, pos as int, end as int);
            }
        }
    }
    if end == pos {
        return Err(RegionParseError::Syntax { at: pos });
    }
    Ok((value, end))
}

/// The maximal digit run is well-founded: it ends at or after its start, no
/// later than the string, and right where a non-digit (or the end) stands.
proof fn lemma_digit_run_facts(cs: Seq<char>, pos: int)
    requires
        0 <= pos <= cs.len(),
    ensures
        pos <= digit_run_end(cs, pos) <= cs.len(),
        digit_run_end(cs, pos) < cs.len()
            ==> !(48 <= cs[digit_run_end(cs, pos)] as u32 <= 57),
    decreases cs.len() - pos,
{
    if pos < cs.len() && 48 <= cs[pos] as u32 <= 57 {
        lemma_digit_run_facts(cs, pos + 1);
    }
}

/// A position inside a maximal digit run continues the same run.
proof fn lemma_digit_run_step(cs: Seq<char>, pos: int, mid: int)
    requires
        0 <= pos <= mid <= cs.len(),
        forall|t: int| pos <= t < mid ==> 48 <= (#[trigger] cs[t]) as u32 <= 57,
    ensures
        digit_run_end(cs, pos) == digit_run_end(cs, mid),
    decreases mid - pos,
{
    if pos < mid {
        assert(48 <= cs[pos] as u32 <= 57);
        lemma_digit_run_step(cs, pos + 1, mid);
    }
}

/// Every position strictly inside a maximal digit run holds a digit.
proof fn lemma_digit_run_in(cs: Seq<char>, pos: int, mid: int)
    requires
        0 <= pos <= mid < digit_run_end(cs, pos),
        digit_run_end(cs, pos) <= cs.len(),
    ensures
        48 <= cs[mid] as u32 <= 57,
    decreases mid - pos,
{
    assert(48 <= cs[pos] as u32 <= 57) by {
        if !(pos < cs.len() && 48 <= cs[pos] as u32 <= 57) {
            assert(digit_run_end(cs, pos) == pos);
        }
    }
    if pos < mid {
        lemma_digit_run_in(cs, pos + 1, mid);
    }
}

/// The characters of a digit run are digits.
proof fn lemma_dec_val_run_digits(cs: Seq<char>, pos: int, upto: int)
    requires
        0 <= pos <= upto <= digit_run_end(cs, pos),
        digit_run_end(cs, pos) <= cs.len(),
    ensures
        forall|t: int| 0 <= t < upto - pos
            ==> 48 <= (#[trigger] cs.subrange(pos, upto)[t]) as u32 <= 57,
{
    assert forall|t: int| 0 <= t < upto - pos implies
        48 <= (#[trigger] cs.subrange(pos, upto)[t]) as u32 <= 57 by {
        lemma_digit_run_in(cs, pos, pos + t);
    }
}

/// A shorter slice of a digit run is worth no more than a longer one.
proof fn lemma_dec_val_prefix_within(cs: Seq<char>, pos: int, mid: int, upto: int)
    requires
        0 <= pos <= mid <= upto <= digit_run_end(cs, pos),
        digit_run_end(cs, pos) <= cs.len(),
    ensures
        dec_val(cs.subrange(pos, mid)) <= dec_val(cs.subrange(pos, upto)),
{
    lemma_dec_val_run_digits(cs, pos, upto);
    lemma_dec_val_prefix_le(cs.subrange(pos, upto), mid - pos);
    assert(cs.subrange(pos, upto).subrange(0, mid - pos) =~= cs.subrange(pos, mid));
}

/// Reads a label starting at `pos`: a quoted literal when it opens with
/// `"`, else the maximal run of non-delimiter characters, which must be
/// nonempty — and for the bare case, exactly that run.
#[verifier::loop_isolation(false)]
#[verifier::loop_isolation(false)]
#[verifier::rlimit(100)]
#[verifier::spinoff_prover]
fn parse_label(cs: &Vec<char>, pos: usize) -> (r: Result<(String, usize), RegionParseError>)
    requires
        pos <= cs@.len(),
    ensures
        match r {
            Ok((l, end)) => pos < end <= cs@.len(),
            Err(_) => true,
        },
        (pos >= cs@.len() || cs@[pos as int] != '"') ==> match r {
            Ok((l, end)) => {
                &&& end == token_run_end(cs@, pos as int)
                &&& l@ == cs@.subrange(pos as int, end as int)
            },
            Err(RegionParseError::Syntax { at }) => {
                &&& at == pos
                &&& token_run_end(cs@, pos as int) == pos
            },
            Err(_) => false,
        },
        forall|lab: Seq<char>| #![trigger escape_text(lab)] quoted_at(cs@, pos as int, lab) ==> {
            &&& r is Ok
            &&& r->Ok_0.0@ == lab
            &&& r->Ok_0.1 == pos + 2 + escape_text(lab).len()
        },
{
    let n = cs.len();
    let mut out: Vec<char> = Vec::new();
    proof {
        assert(out@ =~= cs@.subrange(pos as int, pos as int));
    }
    if pos < n && cs[pos] == '"' {
        let mut i = pos + 1;
        while i < n && cs[i] != '"'
            invariant
                pos + 1 <= i <= n,
                n == cs@.len(),
                forall|lab: Seq<char>| #![trigger escape_text(lab)]
                    quoted_at(cs@, pos as int, lab) ==> {
                    &&& out@.len() <= lab.len()
                    &&& out@ == lab.take(out@.len() as int)
                    &&& i == pos + 1 + escape_text(lab.take(out@.len() as int)).len()
                },
            decreases n - i,
        {
            proof {
                assert forall|lab: Seq<char>| #![trigger escape_text(lab)]
                    quoted_at(cs@, pos as int, lab) implies out@.len() < lab.len() by {
                    if out@.len() == lab.len() {
                        assert(lab.take(out@.len() as int) =~= lab);
                        assert(cs@[i as int] == '"');
                    }
                }
            }
            let c = cs[i];
            let ghost out_pre = out@;
            let ghost i_pre = i as int;
            if c == '\\' {
                if i + 1 >= n {
                    proof {
                        assert forall|lab: Seq<char>| #![trigger escape_text(lab)]
                            !quoted_at(cs@, pos as int, lab) by {
                            if quoted_at(cs@, pos as int, lab) {
                                lemma_quoted_char(cs@, pos as int, lab, out@.len() as int);
                            }
                        }
                    }
                    return Err(RegionParseError::Syntax { at: i });
                }
                let e = cs[i + 1];
                if e == '"' {
                    out.push('"');
                } else if e == '\\' {
                    out.push('\\');
                } else if e == 'n' {
                    out.push('\n');
                } else if e == 'r' {
                    out.push('\r');
                } else if e == 't' {
                    out.push('\t');
                } else {
                    proof {
                        assert forall|lab: Seq<char>| #![trigger escape_text(lab)]
                            !quoted_at(cs@, pos as int, lab) by {
                            if quoted_at(cs@, pos as int, lab) {
                                lemma_quoted_char(cs@, pos as int, lab, out@.len() as int);
                            }
                        }
                    }
                    return Err(RegionParseError::Syntax { at: i });
                }
                i = i + 2;
            } else {
                out.push(c);
                i = i + 1;
            }
            proof {
                assert forall|lab: Seq<char>| #![trigger escape_text(lab)]
                    quoted_at(cs@, pos as int, lab) implies {
                    &&& out@.len() <= lab.len()
                    &&& out@ == lab.take(out@.len() as int)
                    &&& i == pos + 1 + escape_text(lab.take(out@.len() as int)).len()
                } by {
                    let k = out_pre.len() as int;
                    assert(out_pre == lab.take(k));
                    assert(k < lab.len());
                    lemma_quoted_char(cs@, pos as int, lab, k);
                    lemma_escape_snoc(lab.take(k), lab[k]);
                    assert(lab.take(k).push(lab[k]) =~= lab.take(k + 1));
                    assert(out@.last() == lab[k]);
                    assert(out@ == out_pre.push(out@.last()));
                    assert(out@ =~= lab.take(k + 1));
                }
            }
        }
        proof {
            assert forall|lab: Seq<char>| #![trigger escape_text(lab)]
                quoted_at(cs@, pos as int, lab) implies
                out@ == lab && i == pos + 1 + escape_text(lab).len() by {
                if out@.len() < lab.len() {
                    lemma_quoted_char(cs@, pos as int, lab, out@.len() as int);
                }
                assert(out@.len() == lab.len());
                assert(lab.take(out@.len() as int) =~= lab);
                assert(out@ =~= lab);
            }
        }
        if i >= n {
            proof {
                assert forall|lab: Seq<char>| #![trigger escape_text(lab)]
                    !quoted_at(cs@, pos as int, lab) by {
                    if quoted_at(cs@, pos as int, lab) {
                        assert(i == pos + 1 + escape_text(lab).len());
                    }
                }
            }
            return Err(RegionParseError::Syntax { at: pos });
        }
        Ok((string_of(&out), i + 1))
    } else {
        proof {
            assert forall|lab: Seq<char>| #![trigger escape_text(lab)]
                !quoted_at(cs@, pos as int, lab) by {}
        }
        let ghost run_end = token_run_end(cs@, pos as int);
        proof {
            lemma_token_run_facts(cs@, pos as int);
        }
        let mut i = pos;
        while i < n && !(cs[i] == '+' || cs[i] == '=' || cs[i] == ',' || cs[i] == '/')
            invariant
                pos <= i <= run_end,
                out@ == cs@.subrange(pos as int, i as int),
                forall|t: int| pos <= t < i ==> !spec_delimiter(#[trigger] cs@[t]),
            decreases n - i,
        {
            proof {
                assert(!spec_delimiter(cs@[i as int]));
                assert(i < run_end) by {
                    lemma_token_run_facts(cs@, i as int);
                    lemma_token_run_step(cs@, pos as int, i as int);
                }
            }
            out.push(cs[i]);
            i = i + 1;
            proof {
                assert(out@ =~= cs@.subrange(pos as int, i as int));
            }
        }
        proof {
            assert(i == run_end) by {
                if i < run_end {
                    lemma_token_run_in(cs@, pos as int, i as int);
                }
            }
        }
        if i == pos {
            return Err(RegionParseError::Syntax { at: pos });
        }
        Ok((string_of(&out), i))
    }
}

/// A region whose printed form the parser reads back exactly: every label
/// that prints bare is nonempty, and the text cannot be mistaken for an
/// offset prefix — either the offset is nonzero, there are no dimensions,
/// the first label prints quoted, or it has a non-digit character.
pub open spec fn parseable_shape(reg: Region) -> bool {
    &&& forall|t: int| 0 <= t < reg.labels@.len()
        ==> (spec_safe_ident(#[trigger] reg.labels_view()[t]) ==> reg.labels_view()[t].len() > 0)
    &&& (reg.slice.spec_offset() == 0 && reg.labels@.len() > 0
            && spec_safe_ident(reg.labels_view()[0])
        ==> exists|j: int| 0 <= j < reg.labels_view()[0].len()
            && !(48 <= (#[trigger] reg.labels_view()[0][j]) as u32 <= 57))
}

/// What remains to parse after the offset prefix and the first `i` pairs of
/// a region's printed form.
pub open spec fn rest_text(reg: Region, i: int) -> Seq<char> {
    let lv = reg.labels_view();
    let szs = reg.slice.sizes_int();
    let sts = reg.slice.strides_int();
    if i == 0 {
        region_pairs_text(lv, szs, sts, 0)
    } else if i < lv.len() {
        seq![','] + region_pairs_text(lv, szs, sts, i)
    } else {
        Seq::empty()
    }
}

/// The parse state after `i` pairs agrees with the region, dimension for
/// dimension.
pub open spec fn parse_state_matches(
    reg: Region,
    i: int,
    labels: Seq<String>,
    sizes: Seq<usize>,
    strides: Seq<usize>,
) -> bool {
    &&& 0 <= i <= reg.labels@.len()
    &&& labels.len() == i && sizes.len() == i && strides.len() == i
    &&& forall|t: int| 0 <= t < i ==> (#[trigger] labels[t])@ == reg.labels_view()[t]
    &&& forall|t: int| 0 <= t < i ==> (#[trigger] sizes[t]) == reg.slice.spec_sizes()[t]
    &&& forall|t: int| 0 <= t < i ==> (#[trigger] strides[t]) == reg.slice.spec_strides()[t]
}

/// Word characters are neither delimiters, quotes, nor anything the decimal
/// head could run into by surprise.
proof fn lemma_word_char_kinds(c: char)
    requires
        is_word_char(c),
    ensures
        !spec_delimiter(c),
        c != '"',
{
    if c == '+' {
        assert(c as u32 == 43);
    }
    if c == '=' {
        assert(c as u32 == 61);
    }
    if c == ',' {
        assert(c as u32 == 44);
    }
    if c == '/' {
        assert(c as u32 == 47);
    }
    if c == '"' {
        assert(c as u32 == 34);
    }
}


/// The parser hypothesis of the round trip: the input is the printed form
/// of a well-formed region whose shape the parser reads back exactly.
pub open spec fn round_input(reg: Region, s: Seq<char>) -> bool {
    &&& reg.wf()
    &&& parseable_shape(reg)
    &&& s == reg.text()
}

/// The head decision agrees with the region: the text opens with an offset
/// prefix exactly when the region's offset is nonzero.
pub open spec fn head_shape_agrees(reg: Region, s: Seq<char>, numeric_head: bool) -> bool {
    numeric_head == (reg.slice.spec_offset() != 0)
}

/// The full parser hypothesis for the pair loop: a round-trip input whose
/// offset prefix has been consumed up to `start`.
pub open spec fn pairs_hyp(reg: Region, s: Seq<char>, start: int, offset: int) -> bool {
    &&& round_input(reg, s)
    &&& offset == reg.slice.spec_offset()
    &&& s.subrange(start, s.len() as int) == rest_text(reg, 0)
}

/// Position `q` of `s` starts the `i`-th `label=size/stride` pair.
pub open spec fn pair_at(reg: Region, i: int, s: Seq<char>, q: int) -> bool {
    &&& 0 <= i < reg.labels@.len()
    &&& 0 <= q <= s.len()
    &&& s.subrange(q, s.len() as int)
        == region_pairs_text(reg.labels_view(), reg.slice.sizes_int(), reg.slice.strides_int(), i)
}

/// On a printed region, the leading digit run is the offset prefix exactly
/// when the offset is nonzero, and is never followed by a delimiter
/// otherwise.
proof fn lemma_head_shape(reg: Region, s: Seq<char>, numeric_head: bool, dr: int)
    requires
        round_input(reg, s),
        dr == digit_run_end(s, 0),
        numeric_head == (dr > 0 && (dr == s.len() || spec_delimiter(s[dr]))),
    ensures
        head_shape_agrees(reg, s, numeric_head),
{
    broadcast use vstd::seq_lib::group_seq_properties;

    let lv = reg.labels_view();
    let off = reg.slice.spec_offset();
    lemma_digit_run_facts(s, 0);
    if off != 0 {
        let d = dec_text(off);
        lemma_dec_text_digits(off);
        assert(s == (d + seq!['+']) + region_pairs_text(lv, reg.slice.sizes_int(), reg.slice.strides_int(), 0));
        assert forall|t: int| 0 <= t < d.len() implies 48 <= (#[trigger] s[t]) as u32 <= 57 by {
            assert(s[t] == d[t]);
        }
        assert(s[d.len() as int] == '+');
        assert('+' as u32 == 43);
        lemma_digit_run_step(s, 0, d.len() as int);
        assert(digit_run_end(s, d.len() as int) == d.len());
        assert(dr == d.len());
        assert(spec_delimiter(s[dr]));
        assert(numeric_head);
    } else {
        if reg.labels@.len() == 0 {
            assert(s =~= Seq::<char>::empty());
            assert(dr == 0);
            assert(!numeric_head);
        } else {
            let lab = lv[0];
            let szs = reg.slice.sizes_int();
            let sts = reg.slice.strides_int();
            let ltxt = label_text(lab);
            let pair = ltxt + seq!['='] + dec_text(szs[0]) + seq!['/'] + dec_text(sts[0]);
            assert(s == region_pairs_text(lv, szs, sts, 0)) by {
                assert(s =~= Seq::<char>::empty() + region_pairs_text(lv, szs, sts, 0));
            }
            assert forall|t: int| 0 <= t < ltxt.len() implies #[trigger] s[t] == ltxt[t] by {
                if 1 < lv.len() {
                    assert(region_pairs_text(lv, szs, sts, 0)
                        == pair + seq![','] + region_pairs_text(lv, szs, sts, 1));
                } else {
                    assert(region_pairs_text(lv, szs, sts, 0) == pair);
                }
            }
            if !spec_safe_ident(lab) {
                // A quoted label opens with a quote, which is no digit.
                assert(ltxt == seq!['"'] + escape_text(lab) + seq!['"']);
                assert(s[0] == ltxt[0]);
                assert(ltxt[0] == '"');
                assert('"' as u32 == 34);
                assert(dr == 0) by {
                    if dr > 0 {
                        lemma_digit_run_in(s, 0, 0);
                    }
                }
                assert(!numeric_head);
                assert(head_shape_agrees(reg, s, numeric_head));
                return;
            }
            assert(lab.len() > 0);
            assert(ltxt == lab);
            let j = choose|j: int| 0 <= j < lab.len() && !(48 <= (#[trigger] lab[j]) as u32 <= 57);
            assert(dr <= j) by {
                if dr > j {
                    lemma_digit_run_in(s, 0, j);
                }
            }
            if dr > 0 {
                assert(is_word_char(lab[dr]));
                lemma_word_char_kinds(lab[dr]);
                assert(s[dr] == lab[dr]);
                assert(dr < s.len());
                assert(!spec_delimiter(s[dr]));
            }
            assert(!numeric_head);
        }
    }
}

/// On a printed region with a nonzero offset: the leading digit run is the
/// offset's decimal text, it is followed by `+`, and the rest is the pairs.
proof fn lemma_offset_head(reg: Region, s: Seq<char>)
    requires
        round_input(reg, s),
        reg.slice.spec_offset() != 0,
    ensures
        ({
            let d = dec_text(reg.slice.spec_offset());
            &&& digit_run_end(s, 0) == d.len()
            &&& d.len() < s.len() || (d.len() == s.len() && false)
            &&& d.len() < s.len()
            &&& s[d.len() as int] == '+'
            &&& dec_val(s.subrange(0, d.len() as int)) == reg.slice.spec_offset()
            &&& s.subrange(d.len() + 1 as int, s.len() as int) == region_pairs_text(
                reg.labels_view(), reg.slice.sizes_int(), reg.slice.strides_int(), 0)
        }),
{
    broadcast use vstd::seq_lib::group_seq_properties;

    let off = reg.slice.spec_offset();
    let d = dec_text(off);
    let lv = reg.labels_view();
    let pairs = region_pairs_text(lv, reg.slice.sizes_int(), reg.slice.strides_int(), 0);
    lemma_dec_text_digits(off);
    assert(s == (d + seq!['+']) + pairs);
    assert forall|t: int| 0 <= t < d.len() implies 48 <= (#[trigger] s[t]) as u32 <= 57 by {
        assert(s[t] == d[t]);
    }
    assert(s[d.len() as int] == '+');
    assert('+' as u32 == 43);
    lemma_digit_run_step(s, 0, d.len() as int);
    assert(digit_run_end(s, d.len() as int) == d.len());
    assert(s.subrange(0, d.len() as int) =~= d);
    lemma_decimal_roundtrip(off);
    assert(s.subrange(d.len() + 1 as int, s.len() as int) =~= pairs);
}

/// The suffix relation at the `i`-th pair boundary: there is a further pair,
/// a separating comma stands first when `i > 0`, and past it the pair text
/// begins.
proof fn lemma_rest_to_pair(reg: Region, i: int, s: Seq<char>, pos: int)
    requires
        round_input(reg, s),
        0 <= i,
        0 <= pos < s.len(),
        s.subrange(pos, s.len() as int) == rest_text(reg, i),
    ensures
        i < reg.labels@.len(),
        i > 0 ==> s[pos] == ',',
        pair_at(reg, i, s, pos + (if i > 0 { 1int } else { 0int })),
{
    broadcast use vstd::seq_lib::group_seq_properties;

    assert(i < reg.labels@.len()) by {
        if i >= reg.labels@.len() {
            assert(rest_text(reg, i) =~= Seq::<char>::empty());
            assert(s.subrange(pos, s.len() as int).len() == s.len() - pos);
        }
    }
    if i > 0 {
        let pairs = region_pairs_text(
            reg.labels_view(), reg.slice.sizes_int(), reg.slice.strides_int(), i);
        assert(rest_text(reg, i) == seq![','] + pairs);
        assert(s[pos] == s.subrange(pos, s.len() as int)[0]);
        assert(s.subrange(pos + 1, s.len() as int) =~= pairs);
    }
}

/// The i-th pair's nonempty rest is never exhausted: while pairs remain the
/// remaining text is nonempty.
proof fn lemma_rest_nonempty(reg: Region, i: int)
    requires
        round_input(reg, reg.text()),
        0 <= i < reg.labels@.len(),
    ensures
        rest_text(reg, i).len() > 0,
{
    let lv = reg.labels_view();
    let szs = reg.slice.sizes_int();
    let sts = reg.slice.strides_int();
    assert(label_text(lv[i]).len() > 0) by {
        if !spec_safe_ident(lv[i]) {
            assert(label_text(lv[i]) == seq!['"'] + escape_text(lv[i]) + seq!['"']);
        }
    }
    let pair = label_text(lv[i]) + seq!['='] + dec_text(szs[i]) + seq!['/'] + dec_text(sts[i]);
    if i + 1 < lv.len() {
        assert(region_pairs_text(lv, szs, sts, i)
            == pair + seq![','] + region_pairs_text(lv, szs, sts, i + 1));
    } else {
        assert(region_pairs_text(lv, szs, sts, i) == pair);
    }
}

/// The full anatomy of the `i`-th printed pair at position `q`: the bare
/// label run, the `=`, the exact size digits, the `/`, the exact stride
/// digits, and the rest relation that follows them.
#[verifier::rlimit(100)]
#[verifier::spinoff_prover]
proof fn lemma_pair_runs(reg: Region, i: int, s: Seq<char>, q: int)
    requires
        round_input(reg, s),
        pair_at(reg, i, s, q),
    ensures
        ({
            let lab = reg.labels_view()[i];
            let dsz = dec_text(reg.slice.sizes_int()[i]);
            let dst = dec_text(reg.slice.strides_int()[i]);
            let p1 = q + label_text(lab).len();
            let p2 = p1 + 1 + dsz.len();
            let p3 = p2 + 1 + dst.len();
            &&& p3 <= s.len()
            &&& if spec_safe_ident(lab) {
                &&& lab.len() > 0
                &&& s[q] != '"'
                &&& token_run_end(s, q) == p1
                &&& s.subrange(q, p1) == lab
            } else {
                &&& s[q] == '"'
                &&& quoted_at(s, q, lab)
                &&& label_text(lab).len() == 2 + escape_text(lab).len()
            }
            &&& p1 < s.len() && s[p1] == '='
            &&& digit_run_end(s, p1 + 1) == p2
            &&& dec_val(s.subrange(p1 + 1, p2)) == reg.slice.sizes_int()[i]
            &&& p2 < s.len() && s[p2] == '/'
            &&& digit_run_end(s, p2 + 1) == p3
            &&& dec_val(s.subrange(p2 + 1, p3)) == reg.slice.strides_int()[i]
            &&& s.subrange(p3, s.len() as int) == rest_text(reg, i + 1)
        }),
{
    broadcast use vstd::seq_lib::group_seq_properties;

    let lv = reg.labels_view();
    let szs = reg.slice.sizes_int();
    let sts = reg.slice.strides_int();
    let lab = lv[i];
    let ltxt = label_text(lab);
    let dsz = dec_text(szs[i]);
    let dst = dec_text(sts[i]);
    let p1 = q + ltxt.len();
    let p2 = p1 + 1 + dsz.len();
    let p3 = p2 + 1 + dst.len();
    assert(spec_safe_ident(lab) ==> lab.len() > 0);
    let pair = ltxt + seq!['='] + dsz + seq!['/'] + dst;
    let tail: Seq<char> = if i + 1 < lv.len() {
        seq![','] + region_pairs_text(lv, szs, sts, i + 1)
    } else {
        Seq::empty()
    };
    assert(region_pairs_text(lv, szs, sts, i) == pair + tail) by {
        if i + 1 < lv.len() {
            assert(region_pairs_text(lv, szs, sts, i)
                == (label_text(lab) + seq!['='] + dsz + seq!['/'] + dst) + seq![',']
                    + region_pairs_text(lv, szs, sts, i + 1));
            assert((label_text(lab) + seq!['='] + dsz + seq!['/'] + dst) + seq![',']
                + region_pairs_text(lv, szs, sts, i + 1) =~= pair + tail);
        } else {
            assert(region_pairs_text(lv, szs, sts, i) == pair);
            assert(pair =~= pair + tail);
        }
    }
    let suffix = s.subrange(q, s.len() as int);
    assert(suffix == pair + tail);
    assert(suffix.len() == pair.len() + tail.len());
    assert(p3 - q == pair.len());
    lemma_dec_text_digits(szs[i]);
    lemma_dec_text_digits(sts[i]);

    // Character classes along the pair.
    assert forall|t: int| q <= t < p1 implies #[trigger] s[t] == ltxt[t - q] by {
        assert(s[t] == suffix[t - q]);
        assert(suffix[t - q] == pair[t - q]);
        assert(pair[t - q] == ltxt[t - q]);
    }
    assert(s[p1] == '=') by {
        assert(s[p1] == suffix[ltxt.len() as int]);
        assert(pair[ltxt.len() as int] == '=');
    }
    assert forall|t: int| p1 + 1 <= t < p2 implies #[trigger] s[t] == dsz[t - (p1 + 1)] by {
        assert(s[t] == suffix[t - q]);
        assert(suffix[t - q] == pair[t - q]);
        assert(pair[t - q] == dsz[t - (p1 + 1)]);
    }
    assert(s[p2] == '/') by {
        assert(s[p2] == suffix[ltxt.len() + 1 + dsz.len() as int]);
        assert(pair[ltxt.len() + 1 + dsz.len() as int] == '/');
    }
    assert forall|t: int| p2 + 1 <= t < p3 implies #[trigger] s[t] == dst[t - (p2 + 1)] by {
        assert(s[t] == suffix[t - q]);
        assert(suffix[t - q] == pair[t - q]);
        assert(pair[t - q] == dst[t - (p2 + 1)]);
    }

    if spec_safe_ident(lab) {
        // The bare label is the maximal token run from `q`.
        assert(ltxt == lab);
        assert(is_word_char(lab[0]));
        lemma_word_char_kinds(lab[0]);
        assert(s[q] == lab[0]);
        assert forall|t: int| q <= t < p1 implies !spec_delimiter(#[trigger] s[t]) by {
            assert(is_word_char(lab[t - q]));
            lemma_word_char_kinds(lab[t - q]);
        }
        assert('=' as u32 == 61);
        lemma_token_run_step(s, q, p1);
        assert(token_run_end(s, p1) == p1);
        assert(s.subrange(q, p1) =~= lab);
    } else {
        // The quoted label stands at `q`: opening quote, escaped body,
        // closing quote.
        assert(ltxt == seq!['"'] + escape_text(lab) + seq!['"']);
        assert(ltxt.len() == 2 + escape_text(lab).len());
        assert(s[q] == ltxt[0]);
        assert(ltxt[0] == '"');
        assert(quoted_at(s, q, lab)) by {
            assert(s.subrange(q + 1, q + 1 + escape_text(lab).len() as int)
                =~= escape_text(lab)) by {
                assert forall|t: int| 0 <= t < escape_text(lab).len() implies
                    s.subrange(q + 1, q + 1 + escape_text(lab).len() as int)[t]
                        == #[trigger] escape_text(lab)[t] by {
                    assert(s[q + 1 + t] == ltxt[1 + t]);
                    assert(ltxt[1 + t] == escape_text(lab)[t]);
                }
            }
            assert(s[q + 1 + escape_text(lab).len()] == ltxt[1 + escape_text(lab).len() as int]);
            assert(ltxt[1 + escape_text(lab).len() as int] == '"');
        }
    }

    // The size digits are the maximal digit run after `=`.
    assert forall|t: int| p1 + 1 <= t < p2 implies 48 <= (#[trigger] s[t]) as u32 <= 57 by {
        assert(48 <= dsz[t - (p1 + 1)] as u32 <= 57);
    }
    assert('/' as u32 == 47);
    lemma_digit_run_step(s, p1 + 1, p2);
    assert(digit_run_end(s, p2) == p2);
    assert(s.subrange(p1 + 1, p2) =~= dsz);
    lemma_decimal_roundtrip(szs[i]);

    // The stride digits are the maximal digit run after `/`, ended by the
    // comma of the next pair or by the end of the text.
    assert forall|t: int| p2 + 1 <= t < p3 implies 48 <= (#[trigger] s[t]) as u32 <= 57 by {
        assert(48 <= dst[t - (p2 + 1)] as u32 <= 57);
    }
    assert(digit_run_end(s, p3) == p3) by {
        if i + 1 < lv.len() {
            assert(s[p3] == suffix[pair.len() as int]);
            assert(tail[0] == ',');
            assert(',' as u32 == 44);
        } else {
            assert(p3 == s.len());
        }
    }
    lemma_digit_run_step(s, p2 + 1, p3);
    assert(s.subrange(p2 + 1, p3) =~= dst);
    lemma_decimal_roundtrip(sts[i]);

    // What follows the pair.
    assert(s.subrange(p3, s.len() as int) =~= tail);
    assert(tail == rest_text(reg, i + 1)) by {
        if i + 1 >= lv.len() {
            assert(tail =~= rest_text(reg, i + 1));
        }
    }
}

impl Region {
    /// Parses the comma-separated `label=size/stride` pairs from `start` on
    /// and assembles the region with the given offset.
    #[verifier::loop_isolation(false)]
    #[verifier::rlimit(100)]
    #[verifier::spinoff_prover]
    fn parse_pairs(cs: &Vec<char>, start: usize, offset: usize) -> (r: Result<Region, RegionParseError>)
        requires
            start <= cs@.len(),
        ensures
            r is Ok ==> r->Ok_0.wf(),
            forall|reg: Region| #![trigger reg.text()]
                pairs_hyp(reg, cs@, start as int, offset as int) ==> {
                &&& r is Ok
                &&& r->Ok_0.labels_view() == reg.labels_view()
                &&& r->Ok_0.slice.spec_offset() == reg.slice.spec_offset()
                &&& r->Ok_0.slice.spec_sizes() == reg.slice.spec_sizes()
                &&& r->Ok_0.slice.spec_strides() == reg.slice.spec_strides()
            },
    {
        let n = cs.len();
        let mut pos: usize = start;
        let mut labels: Vec<String> = Vec::new();
        let mut sizes: Vec<usize> = Vec::new();
        let mut strides: Vec<usize> = Vec::new();
        while pos < n
            invariant
                pos <= n,
                n == cs@.len(),
                labels@.len() == sizes@.len() == strides@.len(),
                forall|reg: Region| #![trigger reg.text()]
                    pairs_hyp(reg, cs@, start as int, offset as int) ==> {
                    &&& parse_state_matches(reg, labels@.len() as int, labels@, sizes@, strides@)
                    &&& cs@.subrange(pos as int, cs@.len() as int)
                        == rest_text(reg, labels@.len() as int)
                },
            decreases n - pos,
        {
            let ghost i0 = labels@.len() as int;
            proof {
                assert forall|reg: Region| #![trigger reg.text()]
                    pairs_hyp(reg, cs@, start as int, offset as int) implies
                    pair_at(reg, i0, cs@, pos as int + (if i0 > 0 { 1int } else { 0int })) by {
                    lemma_rest_to_pair(reg, i0, cs@, pos as int);
                }
            }
            if labels.len() > 0 {
                if cs[pos] != ',' {
                    proof {
                        assert forall|reg: Region| #![trigger reg.text()]
                            !pairs_hyp(reg, cs@, start as int, offset as int) by {
                            if pairs_hyp(reg, cs@, start as int, offset as int) {
                                lemma_rest_to_pair(reg, i0, cs@, pos as int);
                            }
                        }
                    }
                    return Err(RegionParseError::Syntax { at: pos });
                }
                pos = pos + 1;
            }
            let (label, p1) = match parse_label(cs, pos) {
                Ok(lp) => lp,
                Err(e) => {
                    proof {
                        assert forall|reg: Region| #![trigger reg.text()]
                            !pairs_hyp(reg, cs@, start as int, offset as int) by {
                            if pairs_hyp(reg, cs@, start as int, offset as int) {
                                lemma_pair_runs(reg, i0, cs@, pos as int);
                                let lab = reg.labels_view()[i0];
                                if !spec_safe_ident(lab) {
                                    assert(quoted_at(cs@, pos as int, lab));
                                }
                            }
                        }
                    }
                    return Err(e);
                }
            };
            if p1 >= n || cs[p1] != '=' {
                proof {
                    assert forall|reg: Region| #![trigger reg.text()]
                        !pairs_hyp(reg, cs@, start as int, offset as int) by {
                        if pairs_hyp(reg, cs@, start as int, offset as int) {
                            lemma_pair_runs(reg, i0, cs@, pos as int);
                        }
                    }
                }
                return Err(RegionParseError::Syntax { at: p1 });
            }
            let (size, p2) = match parse_number(cs, p1 + 1) {
                Ok(vp) => vp,
                Err(e) => {
                    proof {
                        assert forall|reg: Region| #![trigger reg.text()]
                            !pairs_hyp(reg, cs@, start as int, offset as int) by {
                            if pairs_hyp(reg, cs@, start as int, offset as int) {
                                lemma_pair_runs(reg, i0, cs@, pos as int);
                                let lab = reg.labels_view()[i0];
                                if !spec_safe_ident(lab) {
                                    assert(quoted_at(cs@, pos as int, lab));
                                }
                            }
                        }
                    }
                    return Err(e);
                }
            };
            if p2 >= n || cs[p2] != '/' {
                proof {
                    assert forall|reg: Region| #![trigger reg.text()]
                        !pairs_hyp(reg, cs@, start as int, offset as int) by {
                        if pairs_hyp(reg, cs@, start as int, offset as int) {
                            lemma_pair_runs(reg, i0, cs@, pos as int);
                        }
                    }
                }
                return Err(RegionParseError::Syntax { at: p2 });
            }
            let (stride, p3) = match parse_number(cs, p2 + 1) {
                Ok(vp) => vp,
                Err(e) => {
                    proof {
                        assert forall|reg: Region| #![trigger reg.text()]
                            !pairs_hyp(reg, cs@, start as int, offset as int) by {
                            if pairs_hyp(reg, cs@, start as int, offset as int) {
                                lemma_pair_runs(reg, i0, cs@, pos as int);
                                let lab = reg.labels_view()[i0];
                                if !spec_safe_ident(lab) {
                                    assert(quoted_at(cs@, pos as int, lab));
                                }
                            }
                        }
                    }
                    return Err(e);
                }
            };
            proof {
                assert forall|reg: Region| #![trigger reg.text()]
                    pairs_hyp(reg, cs@, start as int, offset as int) implies {
                    &&& parse_state_matches(
                        reg, i0 + 1, labels@.push(label), sizes@.push(size), strides@.push(stride))
                    &&& cs@.subrange(p3 as int, cs@.len() as int) == rest_text(reg, i0 + 1)
                } by {
                    lemma_pair_runs(reg, i0, cs@, pos as int);
                    let lab = reg.labels_view()[i0];
                    if !spec_safe_ident(lab) {
                        assert(quoted_at(cs@, pos as int, lab));
                        assert(label@ == lab);
                    }
                }
            }
            labels.push(label);
            sizes.push(size);
            strides.push(stride);
            pos = p3;
        }

        proof {
            assert forall|reg: Region| #![trigger reg.text()]
                pairs_hyp(reg, cs@, start as int, offset as int) implies
                labels@.len() == reg.labels@.len() by {
                if (labels@.len() as int) < reg.labels@.len() {
                    lemma_rest_nonempty(reg, labels@.len() as int);
                    assert(cs@.subrange(pos as int, cs@.len() as int).len() == 0);
                }
            }
        }
        let ghost gsizes = sizes@;
        let ghost gstrides = strides@;
        let slice = match Slice::new(offset, sizes, strides) {
            Ok(sl) => sl,
            Err(e) => {
                proof {
                    assert forall|reg: Region| #![trigger reg.text()]
                        !pairs_hyp(reg, cs@, start as int, offset as int) by {
                        if pairs_hyp(reg, cs@, start as int, offset as int) {
                            assert(gsizes =~= reg.slice.spec_sizes());
                            assert(gstrides =~= reg.slice.spec_strides());
                            assert(seq_int(gsizes) =~= reg.slice.sizes_int());
                            assert(seq_int(gstrides) =~= reg.slice.strides_int());
                        }
                    }
                }
                return Err(RegionParseError::SliceError(e));
            }
        };
        let out = Region { labels, slice };
        proof {
            assert forall|reg: Region| #![trigger reg.text()]
                pairs_hyp(reg, cs@, start as int, offset as int) implies {
                &&& out.labels_view() == reg.labels_view()
                &&& out.slice.spec_offset() == reg.slice.spec_offset()
                &&& out.slice.spec_sizes() == reg.slice.spec_sizes()
                &&& out.slice.spec_strides() == reg.slice.spec_strides()
            } by {
                assert(out.labels_view() =~= reg.labels_view());
                assert(out.slice.spec_sizes() =~= reg.slice.spec_sizes());
                assert(out.slice.spec_strides() =~= reg.slice.spec_strides());
            }
        }
        Ok(out)
    }

    /// Parses the textual form emitted by [`Region::to_string`]: an optional
    /// `offset+` prefix, then comma-separated `label=size/stride` pairs with
    /// bare or quoted labels. On success the region is well-formed. On the
    /// printed form of a well-formed region of parseable shape — bare labels
    /// nonempty, quoted labels arbitrary, the offset prefix unambiguous —
    /// parsing gives that region's shape back exactly: the round trip.
    #[verifier::loop_isolation(false)]
    #[verifier::rlimit(100)]
    #[verifier::spinoff_prover]
    pub fn parse_region(s: &str) -> (r: Result<Region, RegionParseError>)
        ensures
            r is Ok ==> {
                let region = r->Ok_0;
                &&& region.wf()
            },
            forall|reg: Region| #![trigger reg.text()] round_input(reg, s@) ==> {
                &&& r is Ok
                &&& r->Ok_0.labels_view() == reg.labels_view()
                &&& r->Ok_0.slice.spec_offset() == reg.slice.spec_offset()
                &&& r->Ok_0.slice.spec_sizes() == reg.slice.spec_sizes()
                &&& r->Ok_0.slice.spec_strides() == reg.slice.spec_strides()
            },
    {
        let cs = chars_of(s);
        let n = cs.len();
        let mut pos: usize = 0;

        // A leading number is an offset only when followed by '+'; a bare
        // leading number with no '+' is a grammar error, and anything else
        // starts the first label.
        let mut offset: usize = 0;
        let mut digit_run: usize = 0;
        proof {
            lemma_digit_run_facts(cs@, 0);
        }
        while digit_run < n && digit_at(&cs, digit_run)
            invariant
                digit_run <= digit_run_end(cs@, 0),
                forall|t: int| 0 <= t < digit_run ==> 48 <= (#[trigger] cs@[t]) as u32 <= 57,
            decreases n - digit_run,
        {
            proof {
                lemma_digit_run_facts(cs@, digit_run as int);
                lemma_digit_run_step(cs@, 0, digit_run as int);
            }
            digit_run = digit_run + 1;
        }
        proof {
            lemma_digit_run_facts(cs@, 0);
            assert(digit_run == digit_run_end(cs@, 0)) by {
                if digit_run < digit_run_end(cs@, 0) {
                    lemma_digit_run_in(cs@, 0, digit_run as int);
                }
            }
        }
        let numeric_head = digit_run > 0 && (digit_run == n || {
            let c = cs[digit_run];
            c == '+' || c == '=' || c == ',' || c == '/'
        });
        proof {
            assert forall|reg: Region| round_input(reg, cs@) implies
                head_shape_agrees(reg, cs@, numeric_head) by {
                lemma_head_shape(reg, cs@, numeric_head, digit_run as int);
            }
        }
        if numeric_head {
            let (v, end) = match parse_number(&cs, 0) {
                Ok(ve) => ve,
                Err(e) => {
                    proof {
                        assert forall|reg: Region| !round_input(reg, cs@) by {
                            if round_input(reg, cs@) {
                                lemma_offset_head(reg, cs@);
                            }
                        }
                    }
                    return Err(e);
                }
            };
            if end >= n || cs[end] != '+' {
                proof {
                    assert forall|reg: Region| !round_input(reg, cs@) by {
                        if round_input(reg, cs@) {
                            lemma_offset_head(reg, cs@);
                        }
                    }
                }
                return Err(RegionParseError::Syntax { at: end });
            }
            offset = v;
            pos = end + 1;
        }
        proof {
            assert forall|reg: Region| #![trigger reg.text()] round_input(reg, cs@) implies {
                &&& offset == reg.slice.spec_offset()
                &&& cs@.subrange(pos as int, cs@.len() as int) == rest_text(reg, 0)
            } by {
                lemma_head_shape(reg, cs@, numeric_head, digit_run as int);
                if numeric_head {
                    lemma_offset_head(reg, cs@);
                    assert(cs@.subrange(pos as int, cs@.len() as int) =~= rest_text(reg, 0));
                } else {
                    assert(reg.slice.spec_offset() == 0);
                    assert(cs@ == reg.text());
                    assert(reg.text() =~= rest_text(reg, 0));
                    assert(cs@.subrange(0, cs@.len() as int) =~= cs@);
                }
            }
        }
        let out = Self::parse_pairs(&cs, pos, offset);
        proof {
            assert forall|reg: Region| #![trigger reg.text()] round_input(reg, s@) implies {
                &&& out is Ok
                &&& out->Ok_0.labels_view() == reg.labels_view()
                &&& out->Ok_0.slice.spec_offset() == reg.slice.spec_offset()
                &&& out->Ok_0.slice.spec_sizes() == reg.slice.spec_sizes()
                &&& out->Ok_0.slice.spec_strides() == reg.slice.spec_strides()
            } by {
                assert(round_input(reg, cs@));
                assert(pairs_hyp(reg, cs@, pos as int, offset as int));
            }
        }
        out
    }
}

impl core::str::FromStr for Region {
    type Err = RegionParseError;

    /// Parses the textual form of a region; see [`Region::parse_region`].
    fn from_str(s: &str) -> Result<Region, RegionParseError> {
        Region::parse_region(s)
    }
}

} // verus!
