use crate::common::CgVgError;
use crate::text::{
    chars_of, concat_all, concat_strings, push_char, push_spaces, spaces, views,
};
use vstd::prelude::*;
use vstd::std_specs::convert::FromSpec;

verus! {

/// Number of decimal digits needed to write `n` (at least one).
pub open spec fn digits(n: nat) -> nat
    decreases n,
{
    if n < 10 {
        1
    } else {
        1 + digits(n / 10)
    }
}

/// `10` raised to the power `k`.
pub open spec fn pow10(k: nat) -> nat
    decreases k,
{
    if k == 0 {
        1
    } else {
        10 * pow10((k - 1) as nat)
    }
}

/// A number below `10^k` has at most `k` digits.
pub proof fn lemma_digits_bound(n: nat, k: nat)
    requires
        k >= 1,
        n < pow10(k),
    ensures
        digits(n) <= k,
    decreases k,
{
    if n >= 10 {
        let p = pow10((k - 1) as nat);
        if k == 1 {
            assert(pow10(1) == 10 * pow10(0));
        } else {
            assert(n / 10 < p) by (nonlinear_arith)
                requires
                    n < 10 * p,
            ;
            lemma_digits_bound(n / 10, (k - 1) as nat);
        }
    }
}

/// Digit counts grow with the number.
pub proof fn lemma_digits_monotone(a: nat, b: nat)
    requires
        a <= b,
    ensures
        digits(a) <= digits(b),
    decreases b,
{
    if a >= 10 {
        assert(a / 10 <= b / 10) by (nonlinear_arith)
            requires
                a <= b,
        ;
        lemma_digits_monotone(a / 10, b / 10);
    }
}

/// Find the number of digits of a number.
pub fn number_of_digits<T: Copy>(number: &T) -> (r: u32) where u64: From<T>
    ensures
        <u64 as FromSpec<T>>::obeys_from_spec() ==> r == digits(
            <u64 as FromSpec<T>>::from_spec(*number) as nat,
        ),
        1 <= r <= 20,
{
    let num: u64 = u64::from(*number);
    proof {
        reveal_with_fuel(pow10, 21);
        assert(pow10(20) == 100000000000000000000nat);
        lemma_digits_bound(num as nat, 20);
    }
    let mut n: u64 = num;
    let mut count: u32 = 1;
    while n >= 10
        invariant
            count + digits(n as nat) == 1 + digits(num as nat),
            count + digits(n as nat) <= 21,
            1 <= count,
        decreases n,
    {
        n = n / 10;
        count = count + 1;
    }
    count
}

/// The char of a decimal digit.
pub open spec fn digit_char(d: nat) -> char {
    (48 + d) as char
}

/// The decimal writing of `n`, most significant digit first.
pub open spec fn decimal(n: nat) -> Seq<char>
    decreases n,
{
    if n < 10 {
        seq![digit_char(n)]
    } else {
        decimal(n / 10).push(digit_char(n % 10))
    }
}

/// The decimal writing of `n` has `digits(n)` chars.
pub proof fn lemma_decimal_len(n: nat)
    ensures
        decimal(n).len() == digits(n),
    decreases n,
{
    if n >= 10 {
        lemma_decimal_len(n / 10);
    }
}

/// Appends the decimal writing of `n` to `s`.
pub fn push_decimal(s: &mut String, n: u64)
    ensures
        final(s)@ == old(s)@ + decimal(n as nat),
    decreases n,
{
    if n >= 10 {
        push_decimal(s, n / 10);
    }
    let d = (n % 10) as u8;
    push_char(s, (48u8 + d) as char);
    assert(s@ =~= old(s)@ + decimal(n as nat));
}

/// Pad a number with white spaces (if needed) to be printed with the `max_size` len.
///
/// The number must not have more digits than `max_size`: the caller sizes
/// the column by the largest number it shows.
pub fn pad_number(number: u32, max_size: u32) -> (r: String)
    requires
        digits(number as nat) <= max_size,
    ensures
        r@ == decimal(number as nat) + spaces((max_size - digits(number as nat)) as nat),
        r@.len() == max_size,
{
    let nb_digits = number_of_digits(&number);
    let mut out = String::new();
    push_decimal(&mut out, number as u64);
    push_spaces(&mut out, max_size - nb_digits);
    assert(out@ =~= decimal(number as nat) + spaces((max_size - nb_digits) as nat));
    proof {
        lemma_decimal_len(number as nat);
    }
    out
}

/// The control char that opens an SGR escape sequence.
pub open spec fn esc() -> char {
    '\u{1b}'
}

/// The SGR reset sequence `ESC [ 0 m`.
pub open spec fn reset_seq() -> Seq<char> {
    seq!['\u{1b}', '[', '0', 'm']
}

/// One step of the tokenizer: the tokens emitted so far and the escape
/// sequence being read (empty in the normal state), after one more char.
pub open spec fn scan_step(st: (Seq<Seq<char>>, Seq<char>), c: char) -> (
    Seq<Seq<char>>,
    Seq<char>,
) {
    if st.1.len() > 0 {
        if c == 'm' {
            (st.0.push(st.1.push(c)), seq![])
        } else {
            (st.0, st.1.push(c))
        }
    } else if c == esc() {
        (st.0, seq![c])
    } else {
        (st.0.push(seq![c]), seq![])
    }
}

/// Tokenizer state after the first `n` chars of `s`.
pub open spec fn scan(s: Seq<char>, n: nat) -> (Seq<Seq<char>>, Seq<char>)
    decreases n,
{
    if n == 0 || n > s.len() {
        (seq![], seq![])
    } else {
        scan_step(scan(s, (n - 1) as nat), s[n - 1])
    }
}

/// The tokens of `s`: single visible chars and complete escape sequences;
/// `None` when the text ends inside an escape sequence.
pub open spec fn tokenize(s: Seq<char>) -> Option<Seq<Seq<char>>> {
    let st = scan(s, s.len());
    if st.1.len() == 0 {
        Some(st.0)
    } else {
        None
    }
}

/// Split a colored string into visible chars and `ESC ... m` sequences.
pub fn iter_colored(string: &str) -> (r: Result<Vec<String>, CgVgError>)
    ensures
        r is Err <==> tokenize(string@) is None,
        r is Err ==> r->Err_0 == CgVgError::IncompleteEscape,
        r is Ok ==> views(r->Ok_0@) == tokenize(string@)->0,
{
    let cs = chars_of(string);
    let mut toks: Vec<String> = Vec::new();
    let mut pend = String::new();
    let mut in_escape = false;
    let mut i: usize = 0;
    while i < cs.len()
        invariant
            i <= cs.len(),
            cs@ == string@,
            views(toks@) == scan(string@, i as nat).0,
            pend@ == scan(string@, i as nat).1,
            in_escape == (pend@.len() > 0),
        decreases cs.len() - i,
    {
        let c = cs[i];
        let ghost prev = toks@;
        if in_escape {
            push_char(&mut pend, c);
            if c == 'm' {
                toks.push(pend);
                pend = String::new();
                in_escape = false;
                assert(views(toks@) =~= views(prev).push(scan(string@, i as nat).1.push(c)));
            }
        } else if c == '\u{1b}' {
            push_char(&mut pend, c);
            in_escape = true;
        } else {
            let mut t = String::new();
            push_char(&mut t, c);
            toks.push(t);
            assert(views(toks@) =~= views(prev).push(seq![c]));
        }
        i = i + 1;
    }
    if in_escape {
        Err(CgVgError::IncompleteEscape)
    } else {
        Ok(toks)
    }
}

/// A token is an escape sequence when it starts with the escape char.
pub open spec fn is_escape(t: Seq<char>) -> bool {
    t.len() > 0 && t[0] == esc()
}

/// What one token becomes once tabs are expanded.
pub open spec fn tab_piece(t: Seq<char>, tab: nat) -> Seq<Seq<char>> {
    if t == seq!['\t'] {
        Seq::new(tab, |_i| seq![' '])
    } else {
        seq![t]
    }
}

/// The tokens with each tab replaced by `tab` single spaces.
pub open spec fn expand_tabs(ts: Seq<Seq<char>>, tab: nat) -> Seq<Seq<char>>
    decreases ts.len(),
{
    if ts.len() == 0 {
        seq![]
    } else {
        expand_tabs(ts.drop_last(), tab) + tab_piece(ts.last(), tab)
    }
}

/// The wrapper's state: finished lines, the line being built, its visible
/// width, and the escape sequences opened since the last reset.
pub struct WrapState {
    pub lines: Seq<Seq<char>>,
    pub cur: Seq<char>,
    pub width: nat,
    pub mem: Seq<Seq<char>>,
}

/// The wrapper's state after one more token. A line closes when it reaches
/// `max` visible chars; it then ends with a reset when a style is open, and
/// the next line reopens every open style.
pub open spec fn wrap_step(st: WrapState, t: Seq<char>, max: nat) -> WrapState {
    let cur = st.cur + t;
    let width = if is_escape(t) {
        st.width
    } else {
        st.width + 1
    };
    let mem = if !is_escape(t) {
        st.mem
    } else if t == reset_seq() {
        seq![]
    } else {
        st.mem.push(t)
    };
    if width == max {
        WrapState {
            lines: st.lines.push(
                if mem.len() > 0 {
                    cur + reset_seq()
                } else {
                    cur
                },
            ),
            cur: concat_all(mem),
            width: 0,
            mem,
        }
    } else {
        WrapState { lines: st.lines, cur, width, mem }
    }
}

/// The wrapper's state after the first `n` tokens.
pub open spec fn wrap_fold(ts: Seq<Seq<char>>, max: nat, n: nat) -> WrapState
    decreases n,
{
    if n == 0 || n > ts.len() {
        WrapState { lines: seq![], cur: seq![], width: 0, mem: seq![] }
    } else {
        wrap_step(wrap_fold(ts, max, (n - 1) as nat), ts[n - 1], max)
    }
}

/// The lines once the tokens run out: a last line with no visible char is
/// dropped, and with `fill` the last line is padded to `max` columns.
pub open spec fn wrap_finish(st: WrapState, max: nat, fill: bool) -> Seq<Seq<char>> {
    if st.width == 0 {
        st.lines
    } else if fill && st.width < max {
        st.lines.push(st.cur + spaces((max - st.width) as nat))
    } else {
        st.lines.push(st.cur)
    }
}

/// The lines that a token sequence wraps into.
pub open spec fn wrap_tokens(ts: Seq<Seq<char>>, max: nat, fill: bool) -> Seq<Seq<char>> {
    wrap_finish(wrap_fold(ts, max, ts.len()), max, fill)
}

/// The lines that `text` wraps into at `max` visible columns.
pub open spec fn wrap_spec(text: Seq<char>, max: nat, tab: nat, fill: bool) -> Result<
    Seq<Seq<char>>,
    CgVgError,
> {
    if max == 0 {
        Err(CgVgError::InvalidWidth)
    } else {
        match tokenize(text) {
            None => Err(CgVgError::IncompleteEscape),
            Some(ts) => Ok(wrap_tokens(expand_tabs(ts, tab), max, fill)),
        }
    }
}

/// Each char of `t` as a token of its own.
pub open spec fn singles(t: Seq<char>) -> Seq<Seq<char>> {
    Seq::new(t.len(), |i: int| seq![t[i]])
}

/// Text with no escape char and no tab.
pub open spec fn is_plain(t: Seq<char>) -> bool {
    forall|i: int| 0 <= i < t.len() ==> t[i] != esc() && t[i] != '\t'
}

proof fn lemma_scan_plain(t: Seq<char>, n: nat)
    requires
        n <= t.len(),
        forall|i: int| 0 <= i < t.len() ==> t[i] != esc(),
    ensures
        scan(t, n) == (singles(t.take(n as int)), Seq::<char>::empty()),
    decreases n,
{
    if n > 0 {
        lemma_scan_plain(t, (n - 1) as nat);
        assert(singles(t.take(n as int)) =~= singles(t.take(n - 1)).push(seq![t[n - 1]]));
    }
}

proof fn lemma_expand_without_tabs(ts: Seq<Seq<char>>, tab: nat)
    requires
        forall|i: int| 0 <= i < ts.len() ==> ts[i] != seq!['\t'],
    ensures
        expand_tabs(ts, tab) == ts,
    decreases ts.len(),
{
    if ts.len() > 0 {
        lemma_expand_without_tabs(ts.drop_last(), tab);
        assert(ts.drop_last() + seq![ts.last()] =~= ts);
    }
}

/// Every token is one visible char.
pub open spec fn single_visible(ts: Seq<Seq<char>>) -> bool {
    forall|i: int| 0 <= i < ts.len() ==> (#[trigger] ts[i]).len() == 1 && ts[i][0] != esc()
}

proof fn lemma_wrap_fold_visible(ts: Seq<Seq<char>>, w: nat, n: nat)
    requires
        w > 0,
        n <= ts.len(),
        single_visible(ts),
    ensures
        ({
            let st = wrap_fold(ts, w, n);
            &&& st.mem.len() == 0
            &&& st.cur.len() == st.width
            &&& st.width < w
            &&& concat_all(st.lines) + st.cur == concat_all(ts.take(n as int))
            &&& forall|i: int| 0 <= i < st.lines.len() ==> (#[trigger] st.lines[i]).len() == w
        }),
    decreases n,
{
    if n == 0 {
        assert(ts.take(0) =~= Seq::<Seq<char>>::empty());
        assert(concat_all(Seq::<Seq<char>>::empty()) + Seq::<char>::empty() =~= Seq::<char>::empty());
    } else {
        lemma_wrap_fold_visible(ts, w, (n - 1) as nat);
        let st = wrap_fold(ts, w, (n - 1) as nat);
        let tok = ts[n - 1];
        assert(tok.len() == 1 && tok[0] != esc());
        assert(!is_escape(tok));
        let cur = st.cur + tok;
        assert(ts.take(n as int).drop_last() =~= ts.take(n - 1));
        assert(concat_all(ts.take(n as int)) == concat_all(ts.take(n - 1)) + tok);
        if st.width + 1 == w {
            let lines = st.lines.push(cur);
            assert(lines.drop_last() =~= st.lines);
            assert(concat_all(Seq::<Seq<char>>::empty()) =~= Seq::<char>::empty());
            assert(concat_all(lines) + concat_all(Seq::<Seq<char>>::empty()) =~= concat_all(
                st.lines,
            ) + cur);
        } else {
            assert(concat_all(st.lines) + cur =~= (concat_all(st.lines) + st.cur) + tok);
        }
    }
}

proof fn lemma_expand_visible(ts: Seq<Seq<char>>, tab: nat)
    requires
        single_visible(ts),
    ensures
        single_visible(expand_tabs(ts, tab)),
    decreases ts.len(),
{
    if ts.len() > 0 {
        lemma_expand_visible(ts.drop_last(), tab);
        let a = expand_tabs(ts.drop_last(), tab);
        let b = tab_piece(ts.last(), tab);
        assert(ts.last() == ts[ts.len() - 1]);
        assert forall|i: int| 0 <= i < (a + b).len() implies (#[trigger] (a + b)[i]).len() == 1
            && (a + b)[i][0] != esc() by {
            if i >= a.len() {
                assert((a + b)[i] == b[i - a.len()]);
            } else {
                assert((a + b)[i] == a[i]);
            }
        }
    }
}

proof fn lemma_concat_singles(t: Seq<char>)
    ensures
        concat_all(singles(t)) == t,
    decreases t.len(),
{
    if t.len() > 0 {
        lemma_concat_singles(t.drop_last());
        assert(singles(t).drop_last() =~= singles(t.drop_last()));
        assert(t.drop_last() + seq![t.last()] =~= t);
    }
}

/// Text with no escape char wraps into lines of at most `w` chars, all but
/// the last exactly `w`; joined, they give the text with each tab expanded
/// to `tab` spaces, so text without tabs comes back exactly.
pub proof fn lemma_wrap_plain(t: Seq<char>, w: nat, tab: nat)
    requires
        w > 0,
        forall|i: int| 0 <= i < t.len() ==> t[i] != esc(),
    ensures
        wrap_spec(t, w, tab, false) is Ok,
        ({
            let lines = wrap_spec(t, w, tab, false)->Ok_0;
            &&& concat_all(lines) == concat_all(expand_tabs(singles(t), tab))
            &&& is_plain(t) ==> concat_all(lines) == t
            &&& forall|i: int| 0 <= i < lines.len() ==> (#[trigger] lines[i]).len() <= w
            &&& forall|i: int| 0 <= i < lines.len() - 1 ==> (#[trigger] lines[i]).len() == w
        }),
{
    lemma_scan_plain(t, t.len());
    assert(t.take(t.len() as int) =~= t);
    let ts0 = singles(t);
    assert(tokenize(t) == Some(ts0));
    assert forall|i: int| 0 <= i < ts0.len() implies (#[trigger] ts0[i]).len() == 1 && ts0[i][0]
        != esc() by {
        assert(ts0[i][0] == t[i]);
    }
    lemma_expand_visible(ts0, tab);
    let ts = expand_tabs(ts0, tab);
    lemma_wrap_fold_visible(ts, w, ts.len());
    assert(ts.take(ts.len() as int) =~= ts);
    let st = wrap_fold(ts, w, ts.len());
    let lines = wrap_spec(t, w, tab, false)->Ok_0;
    if st.width == 0 {
        assert(st.cur =~= Seq::<char>::empty());
        assert(concat_all(st.lines) + st.cur =~= concat_all(st.lines));
    } else {
        assert(lines == st.lines.push(st.cur));
        assert(lines.drop_last() =~= st.lines);
        assert forall|i: int| 0 <= i < lines.len() implies (#[trigger] lines[i]).len() <= w by {
            if i < st.lines.len() {
                assert(lines[i] == st.lines[i]);
            }
        }
        assert forall|i: int| 0 <= i < lines.len() - 1 implies (#[trigger] lines[i]).len() == w by {
            assert(lines[i] == st.lines[i]);
        }
    }
    if is_plain(t) {
        assert forall|i: int| 0 <= i < ts0.len() implies ts0[i] != seq!['\t'] by {
            assert(ts0[i][0] == t[i]);
        }
        lemma_expand_without_tabs(ts0, tab);
        lemma_concat_singles(t);
    }
}

/// One complete SGR sequence: the escape char, then no `m` but the last char.
pub open spec fn is_sgr(e: Seq<char>) -> bool {
    &&& e.len() >= 2
    &&& e[0] == esc()
    &&& e.last() == 'm'
    &&& forall|k: int| 0 < k < e.len() - 1 ==> e[k] != 'm'
}

proof fn lemma_scan_concat(a: Seq<char>, b: Seq<char>, k: nat)
    requires
        k <= b.len(),
        scan(a, a.len()).1.len() == 0,
    ensures
        scan(a + b, a.len() + k) == (scan(a, a.len()).0 + scan(b, k).0, scan(b, k).1),
    decreases k,
{
    let s = a + b;
    if k == 0 {
        assert(s.take(a.len() as int) =~= a);
        lemma_scan_prefix(s, a, a.len());
        assert(scan(a, a.len()).0 + seq![] =~= scan(a, a.len()).0);
    } else {
        lemma_scan_concat(a, b, (k - 1) as nat);
        let x = scan(a, a.len()).0;
        let prev = scan(b, (k - 1) as nat);
        let c = b[k - 1];
        assert(s[a.len() + k - 1] == c);
        let st = scan_step(prev, c);
        if prev.1.len() > 0 {
            if c == 'm' {
                assert((x + prev.0).push(prev.1.push(c)) =~= x + prev.0.push(prev.1.push(c)));
            }
        } else if c != esc() {
            assert((x + prev.0).push(seq![c]) =~= x + prev.0.push(seq![c]));
        }
    }
}

proof fn lemma_scan_prefix(s: Seq<char>, a: Seq<char>, n: nat)
    requires
        n <= a.len() <= s.len(),
        s.take(a.len() as int) == a,
    ensures
        scan(s, n) == scan(a, n),
    decreases n,
{
    if n > 0 {
        lemma_scan_prefix(s, a, (n - 1) as nat);
        assert(s[n - 1] == a[n - 1]);
    }
}

proof fn lemma_scan_sgr(e: Seq<char>, n: nat)
    requires
        is_sgr(e),
        1 <= n <= e.len(),
    ensures
        n < e.len() ==> scan(e, n) == (Seq::<Seq<char>>::empty(), e.take(n as int)),
        n == e.len() ==> scan(e, n) == (seq![e], Seq::<char>::empty()),
    decreases n,
{
    if n == 1 {
        assert(scan(e, 0) == (Seq::<Seq<char>>::empty(), Seq::<char>::empty()));
        assert(e.take(1) =~= seq![e[0]]);
    } else {
        lemma_scan_sgr(e, (n - 1) as nat);
        assert(e.take(n as int) =~= e.take(n - 1).push(e[n - 1]));
        if n == e.len() {
            assert(e.take(n as int) =~= e);
        }
    }
}

proof fn lemma_tokenize_styled(e: Seq<char>, p: Seq<char>)
    requires
        is_sgr(e),
        is_plain(p),
    ensures
        tokenize(e + p + reset_seq()) == Some(seq![e] + singles(p) + seq![reset_seq()]),
{
    let r = reset_seq();
    lemma_scan_sgr(e, e.len());
    lemma_scan_plain(p, p.len());
    assert(p.take(p.len() as int) =~= p);
    lemma_scan_concat(e, p, p.len());
    assert(r[0] == esc() && r[1] == '[' && r[2] == '0' && r[3] == 'm');
    let e0 = Seq::<Seq<char>>::empty();
    assert(scan(r, 0) == (e0, Seq::<char>::empty()));
    assert(scan(r, 1) == scan_step(scan(r, 0), r[0]));
    assert(scan(r, 1) == (e0, seq![esc()]));
    assert(scan(r, 2) == scan_step(scan(r, 1), r[1]));
    assert(scan(r, 2) == (e0, seq![esc()].push('[')));
    assert(scan(r, 3) == scan_step(scan(r, 2), r[2]));
    assert(scan(r, 3) == (e0, seq![esc()].push('[').push('0')));
    assert(seq![esc()].push('[').push('0').push('m') =~= r);
    assert(scan(r, 4) == scan_step(scan(r, 3), r[3]));
    assert(scan(r, 4) == (e0.push(r), Seq::<char>::empty()));
    assert(e0.push(r) =~= seq![r]);
    assert((e + p).len() == e.len() + p.len());
    lemma_scan_concat(e + p, r, 4);
}

proof fn lemma_wrap_styled_fold(e: Seq<char>, p: Seq<char>, w: nat, q: nat, r: nat)
    requires
        is_sgr(e),
        e != reset_seq(),
        is_plain(p),
        w > 0,
        r < w,
        q * w + r <= p.len(),
    ensures
        ({
            let st = wrap_fold(seq![e] + singles(p) + seq![reset_seq()], w, 1 + q * w + r);
            &&& st.width == r
            &&& st.mem == seq![e]
            &&& st.cur == e + p.subrange((q * w) as int, (q * w + r) as int)
            &&& st.lines.len() == q
            &&& forall|i: int|
                0 <= i < q ==> #[trigger] st.lines[i] == e + p.subrange(i * w, (i + 1) * w)
                    + reset_seq()
        }),
    decreases q, r,
{
    let ts = seq![e] + singles(p) + seq![reset_seq()];
    if q == 0 && r == 0 {
        assert(q * w == 0) by (nonlinear_arith)
            requires
                q == 0,
        ;
        assert(ts[0] == e);
        let st0 = wrap_fold(ts, w, 0);
        assert(wrap_fold(ts, w, 1) == wrap_step(st0, e, w));
        assert(is_escape(e));
        assert(st0.mem.push(e) =~= seq![e]);
        assert(st0.cur + e =~= e + p.subrange(0, 0));
    } else {
        let (pq, pr) = if r > 0 {
            (q, (r - 1) as nat)
        } else {
            ((q - 1) as nat, (w - 1) as nat)
        };
        assert(pq * w + pr + 1 == q * w + r) by (nonlinear_arith)
            requires
                (r > 0 && pq == q && pr == r - 1) || (r == 0 && q > 0 && pq == q - 1 && pr == w
                    - 1),
        ;
        lemma_wrap_styled_fold(e, p, w, pq as nat, pr);
        let k: int = (pq * w + pr) as int;
        let st = wrap_fold(ts, w, (1 + k) as nat);
        assert(ts[1 + k] == singles(p)[k]);
        let c = p[k];
        assert(!is_escape(seq![c]));
        let cur = st.cur + seq![c];
        assert(cur =~= e + p.subrange((pq * w) as int, k + 1));
        let st1 = wrap_fold(ts, w, (1 + q * w + r) as nat);
        assert(st1 == wrap_step(st, seq![c], w));
        if r > 0 {
            assert(pq == q && k + 1 == q * w + r);
            assert(st1.lines == st.lines);
            assert(st1.cur == cur);
        } else {
            assert(pr + 1 == w);
            assert(seq![e].drop_last() =~= Seq::<Seq<char>>::empty());
            assert(concat_all(seq![e]) == concat_all(Seq::<Seq<char>>::empty()) + e);
            assert(concat_all(seq![e]) =~= e);
            assert(e + p.subrange((q * w) as int, (q * w + r) as int) =~= e);
            assert(st1.cur == e);
            assert(st1.lines == st.lines.push(cur + reset_seq()));
            let nl = st1.lines;
            assert(pq * w + w == q * w) by (nonlinear_arith)
                requires
                    pq == q - 1,
            ;
            assert forall|i: int| 0 <= i < q implies #[trigger] nl[i] == e + p.subrange(
                i * w,
                (i + 1) * w,
            ) + reset_seq() by {
                if i == pq {
                    assert((i + 1) * w == q * w) by (nonlinear_arith)
                        requires
                            i == q - 1,
                    ;
                } else {
                    assert(nl[i] == st.lines[i]);
                }
            }
        }
    }
}

/// A single SGR sequence `e` (not a reset) before plain text `p`, closed by a
/// reset, wraps at `w` into `ceil(len(p) / w)` lines; each one reopens `e`,
/// holds the next `w` chars of `p` (the last line the rest) and closes with a
/// reset, so each line is styled text of its own.
pub proof fn lemma_wrap_single_style(e: Seq<char>, p: Seq<char>, w: nat, tab: nat)
    requires
        w > 0,
        is_sgr(e),
        e != reset_seq(),
        is_plain(p),
    ensures
        wrap_spec(e + p + reset_seq(), w, tab, false) == Ok::<Seq<Seq<char>>, CgVgError>(
            Seq::new(
                ((p.len() + w - 1) / (w as int)) as nat,
                |i: int|
                    e + p.subrange(
                        i * w,
                        if (i + 1) * w <= p.len() {
                            (i + 1) * w
                        } else {
                            p.len() as int
                        },
                    ) + reset_seq(),
            ),
        ),
{
    let rs = reset_seq();
    let ts = seq![e] + singles(p) + seq![rs];
    lemma_tokenize_styled(e, p);
    assert forall|i: int| 0 <= i < ts.len() implies ts[i] != seq!['\t'] by {
        if 1 <= i < ts.len() - 1 {
            assert(ts[i] == seq![p[i - 1]]);
            assert(ts[i][0] == p[i - 1]);
        } else if i == ts.len() - 1 {
            assert(ts[i] == rs);
        }
    }
    lemma_expand_without_tabs(ts, tab);
    let n = p.len();
    let q = n / w;
    let r = n % w;
    vstd::arithmetic::div_mod::lemma_fundamental_div_mod(n as int, w as int);
    assert(q * w + r == n) by (nonlinear_arith)
        requires
            n == w * q + r,
    ;
    lemma_wrap_styled_fold(e, p, w, q, r);
    let st = wrap_fold(ts, w, 1 + n);
    assert(ts[1 + n as int] == rs);
    let want = Seq::new(
        ((n + w - 1) / (w as int)) as nat,
        |i: int|
            e + p.subrange(
                i * w,
                if (i + 1) * w <= n {
                    (i + 1) * w
                } else {
                    n as int
                },
            ) + rs,
    );
    let fin = wrap_fold(ts, w, ts.len());
    assert(fin.mem.len() == 0);
    assert(fin.cur == st.cur + rs);
    let lines = wrap_finish(fin, w, false);
    if r == 0 {
        assert(n + w - 1 == q * w + (w - 1));
        vstd::arithmetic::div_mod::lemma_fundamental_div_mod_converse(
            (n + w - 1) as int,
            w as int,
            q as int,
            (w - 1) as int,
        );
    } else {
        assert(n + w - 1 == (q + 1) * w + (r - 1)) by (nonlinear_arith)
            requires
                n == q * w + r,
        ;
        vstd::arithmetic::div_mod::lemma_fundamental_div_mod_converse(
            (n + w - 1) as int,
            w as int,
            (q + 1) as int,
            (r - 1) as int,
        );
    }
    assert(lines.len() == want.len());
    assert forall|i: int| 0 <= i < lines.len() implies lines[i] == want[i] by {
        if i < q {
            assert((i + 1) * w <= q * w) by (nonlinear_arith)
                requires
                    i + 1 <= q,
            ;
            assert(lines[i] == st.lines[i]);
        } else {
            assert(i == q);
            assert(n < (i + 1) * w) by (nonlinear_arith)
                requires
                    i == q,
                    n == q * w + r,
                    r < w,
            ;
            assert(lines[i] == st.cur + rs);
        }
    }
    assert(lines =~= want);
}

fn is_tab_token(t: &String) -> (r: bool)
    ensures
        r == (t@ == seq!['\t']),
{
    let s = t.as_str();
    if s.unicode_len() == 1 && s.get_char(0) == '\t' {
        assert(t@ =~= seq!['\t']);
        true
    } else {
        false
    }
}

fn is_escape_token(t: &String) -> (r: bool)
    ensures
        r == is_escape(t@),
{
    let s = t.as_str();
    !s.is_empty() && s.get_char(0) == '\u{1b}'
}

/// The SGR reset sequence as a string.
fn reset_string() -> (r: String)
    ensures
        r@ == reset_seq(),
{
    let r = String::from_str("\u{1b}[0m");
    proof {
        reveal_strlit("\u{1b}[0m");
        assert(r@ =~= reset_seq());
    }
    r
}

fn expand_tab_tokens(toks: &Vec<String>, tab: u32) -> (r: Vec<String>)
    ensures
        views(r@) == expand_tabs(views(toks@), tab as nat),
{
    let mut out: Vec<String> = Vec::new();
    let mut i: usize = 0;
    while i < toks.len()
        invariant
            i <= toks.len(),
            views(out@) == expand_tabs(views(toks@.take(i as int)), tab as nat),
        decreases toks.len() - i,
    {
        let ghost before = views(out@);
        assert(views(toks@.take(i + 1)).drop_last() =~= views(toks@.take(i as int)));
        assert(views(toks@.take(i + 1)).last() == toks@[i as int]@);
        if is_tab_token(&toks[i]) {
            let mut k: u32 = 0;
            while k < tab
                invariant
                    k <= tab,
                    views(out@) == before + Seq::new(k as nat, |_j| seq![' ']),
                decreases tab - k,
            {
                let mut sp = String::new();
                push_char(&mut sp, ' ');
                assert(sp@ =~= seq![' ']);
                let ghost o0 = out@;
                out.push(sp);
                assert(views(out@) =~= views(o0).push(seq![' ']));
                k = k + 1;
                assert(views(out@) =~= before + Seq::new(k as nat, |_j| seq![' ']));
            }
        } else {
            out.push(toks[i].clone());
            assert(views(out@) =~= before + seq![toks@[i as int]@]);
        }
        i = i + 1;
    }
    assert(toks@.take(toks.len() as int) =~= toks@);
    out
}

/// Wrap text with support for colored strings.
///
/// - tabs are replaced by `tab_size` spaces, so that the printed line stays in
///   the delimited space;
/// - escape sequences take no column; a line broken inside a style ends with a
///   reset and the next line reopens the styles still open;
/// - if `fill_end` is true, the last line is padded with spaces to `max_length`.
pub fn wrap_text(text: &str, max_length: &u32, tab_size: &u32, fill_end: bool) -> (r: Result<
    Vec<String>,
    CgVgError,
>)
    ensures
        match r {
            Ok(v) => wrap_spec(text@, *max_length as nat, *tab_size as nat, fill_end) == Ok::<
                Seq<Seq<char>>,
                CgVgError,
            >(views(v@)),
            Err(e) => wrap_spec(text@, *max_length as nat, *tab_size as nat, fill_end) == Err::<
                Seq<Seq<char>>,
                CgVgError,
            >(e),
        },
{
    let max = *max_length;
    if max == 0 {
        return Err(CgVgError::InvalidWidth);
    }
    let toks = match iter_colored(text) {
        Ok(toks) => toks,
        Err(e) => {
            return Err(e);
        },
    };
    let ts = expand_tab_tokens(&toks, *tab_size);
    let ghost gts = views(ts@);
    let reset = reset_string();
    let mut lines: Vec<String> = Vec::new();
    let mut cur = String::new();
    let mut width: u32 = 0;
    let mut mem: Vec<String> = Vec::new();
    let mut i: usize = 0;
    while i < ts.len()
        invariant
            i <= ts.len(),
            gts == views(ts@),
            reset@ == reset_seq(),
            0 < max,
            width < max,
            views(lines@) == wrap_fold(gts, max as nat, i as nat).lines,
            cur@ == wrap_fold(gts, max as nat, i as nat).cur,
            width == wrap_fold(gts, max as nat, i as nat).width,
            views(mem@) == wrap_fold(gts, max as nat, i as nat).mem,
        decreases ts.len() - i,
    {
        let t = &ts[i];
        assert(gts[i as int] == t@);
        let escape = is_escape_token(t);
        cur.append(t.as_str());
        if escape {
            if t.eq(&reset) {
                mem = Vec::new();
                assert(views(mem@) =~= seq![]);
            } else {
                let ghost m0 = mem@;
                mem.push(t.clone());
                assert(views(mem@) =~= views(m0).push(t@));
            }
        } else {
            width = width + 1;
        }
        if width == max {
            if mem.len() > 0 {
                cur.append(reset.as_str());
            }
            let ghost l0 = lines@;
            lines.push(cur);
            assert(views(lines@) =~= views(l0).push(lines@.last()@));
            cur = concat_strings(&mem);
            width = 0;
        }
        i = i + 1;
    }
    if width > 0 {
        if fill_end && width < max {
            push_spaces(&mut cur, max - width);
        }
        let ghost l0 = lines@;
        lines.push(cur);
        assert(views(lines@) =~= views(l0).push(lines@.last()@));
    }
    Ok(lines)
}

} // verus!
