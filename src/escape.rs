use vstd::prelude::*;

verus! {

/// The code point of `\`.
pub const BACKSLASH: u32 = 92;

/// The code point of `c`, which ends all output.
pub const STOP_LETTER: u32 = 99;

/// The code point of `x`, which opens a hexadecimal escape.
pub const HEX_LETTER: u32 = 120;

/// The code points of a string.
pub open spec fn codes(s: Seq<char>) -> Seq<u32> {
    s.map_values(|c: char| c as u32)
}

/// The byte written for each code point: its low eight bits.
pub open spec fn low_bytes(s: Seq<u32>) -> Seq<u8> {
    s.map_values(|c: u32| (c % 256) as u8)
}

/// Whether `c` is a digit in `radix` (8 or 16; hexadecimal letters in either case).
pub open spec fn is_digit(c: u32, radix: u32) -> bool {
    if radix == 8 {
        48 <= c <= 55
    } else {
        (48 <= c <= 57) || (65 <= c <= 70) || (97 <= c <= 102)
    }
}

/// The value of a digit.
pub open spec fn digit_value(c: u32) -> nat {
    if c <= 57 {
        (c - 48) as nat
    } else if c <= 70 {
        (c - 55) as nat
    } else {
        (c - 87) as nat
    }
}

/// How many digits of `radix`, at most `max`, stand in `s` from position `j` on.
pub open spec fn digit_run(s: Seq<u32>, j: int, max: nat, radix: u32) -> nat
    decreases max,
{
    if max == 0 || j < 0 || j >= s.len() || !is_digit(s[j], radix) {
        0
    } else {
        1 + digit_run(s, j + 1, (max - 1) as nat, radix)
    }
}

/// The number that the `n` digits of `s` from position `j` on denote in `radix`.
pub open spec fn digits_value(s: Seq<u32>, j: int, n: nat, radix: u32) -> nat
    decreases n,
{
    if n == 0 {
        0
    } else {
        (digits_value(s, j, (n - 1) as nat, radix) * radix + digit_value(s[j + n - 1])) as nat
    }
}

/// A number clamped to the largest byte.
pub open spec fn saturate(v: nat) -> u32 {
    if v > 255 {
        255
    } else {
        v as u32
    }
}

/// The length of the octal escape at `i` (0 where none starts there): a backslash, then
/// either a digit from 1 to 7 and up to two more octal digits, or a `0` and up to three.
pub open spec fn octal_len(s: Seq<u32>, i: int) -> nat {
    if 0 <= i && i + 1 < s.len() && s[i] == BACKSLASH && is_digit(s[i + 1], 8) {
        2 + digit_run(s, i + 2, if s[i + 1] == 48 { 3 } else { 2 }, 8)
    } else {
        0
    }
}

/// The byte that the octal escape at `i` stands for.
pub open spec fn octal_byte(s: Seq<u32>, i: int) -> u32 {
    saturate(digits_value(s, i + 1, (octal_len(s, i) - 1) as nat, 8))
}

/// The first position from `i` on where an octal escape starts.
pub open spec fn octal_first(s: Seq<u32>, i: int) -> Option<int>
    decreases s.len() - i,
{
    if i < 0 || i >= s.len() {
        None
    } else if octal_len(s, i) > 0 {
        Some(i)
    } else {
        octal_first(s, i + 1)
    }
}

/// `s` with the `n` code points at `p` replaced by the single code point `b`.
pub open spec fn splice(s: Seq<u32>, p: int, n: int, b: u32) -> Seq<u32> {
    s.take(p) + seq![b] + s.skip(p + n)
}

/// Replaces the leftmost octal escape by its byte, again and again, until none is left.
pub open spec fn octal_all(s: Seq<u32>) -> Seq<u32>
    decreases s.len(),
{
    match octal_first(s, 0) {
        Some(p) => {
            let t = splice(s, p, octal_len(s, p) as int, octal_byte(s, p));
            // A replacement always shortens `s`; the test states the measure of the recursion.
            if t.len() < s.len() {
                octal_all(t)
            } else {
                s
            }
        },
        None => s,
    }
}

proof fn lemma_digit_run_bound(s: Seq<u32>, j: int, max: nat, radix: u32)
    ensures
        digit_run(s, j, max, radix) <= max,
        j >= 0 ==> j + digit_run(s, j, max, radix) <= s.len() || digit_run(s, j, max, radix) == 0,
    decreases max,
{
    if !(max == 0 || j < 0 || j >= s.len() || !is_digit(s[j], radix)) {
        lemma_digit_run_bound(s, j + 1, (max - 1) as nat, radix);
    }
}

proof fn lemma_octal_len_bound(s: Seq<u32>, i: int)
    ensures
        octal_len(s, i) > 0 ==> 2 <= octal_len(s, i) <= 5 && i + octal_len(s, i) <= s.len(),
{
    if 0 <= i && i + 1 < s.len() && s[i] == BACKSLASH && is_digit(s[i + 1], 8) {
        lemma_digit_run_bound(s, i + 2, if s[i + 1] == 48 { 3 } else { 2 }, 8);
    }
}

/// Counts the digits of `radix`, at most `max`, from position `j` on.
fn count_digits(s: &Vec<u32>, j: usize, max: usize, radix: u32) -> (n: usize)
    requires
        max <= 4,
    ensures
        n == digit_run(s@, j as int, max as nat, radix),
        n <= max,
{
    let mut k: usize = 0;
    while k < max && j < s.len() && k < s.len() - j && is_digit_exec(s[j + k], radix)
        invariant
            k <= max <= 4,
            digit_run(s@, j as int, max as nat, radix) == k + digit_run(
                s@,
                j + k,
                (max - k) as nat,
                radix,
            ),
        decreases max - k,
    {
        k = k + 1;
    }
    k
}

fn is_digit_exec(c: u32, radix: u32) -> (r: bool)
    ensures
        r == is_digit(c, radix),
{
    if radix == 8 {
        48 <= c && c <= 55
    } else {
        (48 <= c && c <= 57) || (65 <= c && c <= 70) || (97 <= c && c <= 102)
    }
}

/// A bound on the value of `n` digits of radix at most 16: `16^n - 1`.
spec fn value_bound(n: nat) -> nat
    decreases n,
{
    if n == 0 {
        0
    } else {
        value_bound((n - 1) as nat) * 16 + 15
    }
}

/// Reads the `n` digits from position `j` on as a number in `radix`, clamped to a byte.
fn read_digits(s: &Vec<u32>, j: usize, n: usize, radix: u32) -> (b: u32)
    requires
        n <= 4,
        radix == 8 || radix == 16,
        j + n <= s@.len(),
        forall|k: int| j <= k < j + n ==> is_digit(#[trigger] s@[k], radix),
    ensures
        b == saturate(digits_value(s@, j as int, n as nat, radix)),
{
    assert(value_bound(4) == 65535) by {
        assert(value_bound(0) == 0);
        assert(value_bound(1) == 15);
        assert(value_bound(2) == 255);
        assert(value_bound(3) == 4095);
    }
    let len = s.len();
    let mut v: u32 = 0;
    let mut k: usize = 0;
    while k < n
        invariant
            k <= n <= 4,
            len == s@.len(),
            j + n <= s@.len(),
            radix == 8 || radix == 16,
            forall|m: int| j <= m < j + n ==> is_digit(#[trigger] s@[m], radix),
            v == digits_value(s@, j as int, k as nat, radix),
            v <= value_bound(k as nat),
            value_bound(4) == 65535,
        decreases n - k,
    {
        let c = s[j + k];
        assert(is_digit(s@[j + k], radix));
        let d: u32 = if c <= 57 {
            c - 48
        } else if c <= 70 {
            c - 55
        } else {
            c - 87
        };
        assert(d <= 15);
        proof {
            lemma_value_bound_mono(k as nat, 4);
            assert(v * radix <= value_bound(k as nat) * 16) by (nonlinear_arith)
                requires
                    v <= value_bound(k as nat),
                    radix <= 16,
            ;
        }
        v = v * radix + d;
        k = k + 1;
    }
    if v > 255 {
        255
    } else {
        v
    }
}

proof fn lemma_value_bound_mono(a: nat, b: nat)
    requires
        a <= b,
    ensures
        value_bound(a) <= value_bound(b),
    decreases b - a,
{
    if a < b {
        lemma_value_bound_mono(a, (b - 1) as nat);
    }
}

proof fn lemma_run_digits(s: Seq<u32>, j: int, max: nat, radix: u32)
    ensures
        forall|k: int|
            j <= k < j + digit_run(s, j, max, radix) ==> is_digit(#[trigger] s[k], radix),
    decreases max,
{
    if !(max == 0 || j < 0 || j >= s.len() || !is_digit(s[j], radix)) {
        lemma_run_digits(s, j + 1, (max - 1) as nat, radix);
    }
}

/// The length of the octal escape at `i`, 0 where none starts there.
fn octal_len_at(s: &Vec<u32>, i: usize) -> (n: usize)
    ensures
        n == octal_len(s@, i as int),
{
    if i < s.len() && s.len() - i > 1 && s[i] == BACKSLASH && is_digit_exec(s[i + 1], 8) {
        let max: usize = if s[i + 1] == 48 {
            3
        } else {
            2
        };
        2 + count_digits(s, i + 2, max, 8)
    } else {
        0
    }
}

/// Replaces the code points `p .. p + n` of `s` by the single code point `b`.
fn splice_exec(s: &Vec<u32>, p: usize, n: usize, b: u32) -> (r: Vec<u32>)
    requires
        p + n <= s@.len(),
    ensures
        r@ == splice(s@, p as int, n as int, b),
{
    let mut r: Vec<u32> = Vec::new();
    let mut k: usize = 0;
    while k < p
        invariant
            k <= p,
            p + n <= s@.len(),
            r@ == s@.take(k as int),
        decreases p - k,
    {
        r.push(s[k]);
        k = k + 1;
        assert(r@ =~= s@.take(k as int));
    }
    r.push(b);
    let len = s.len();
    let mut k: usize = p + n;
    while k < s.len()
        invariant
            p + n <= k <= s@.len(),
            r@ == s@.take(p as int) + seq![b] + s@.subrange(p + n, k as int),
        decreases s@.len() - k,
    {
        r.push(s[k]);
        k = k + 1;
        assert(r@ =~= s@.take(p as int) + seq![b] + s@.subrange(p + n, k as int));
    }
    assert(r@ =~= splice(s@, p as int, n as int, b));
    r
}

/// Replaces octal escapes, always the leftmost one first, until none is left.
pub fn replace_octal(s: Vec<u32>) -> (r: Vec<u32>)
    ensures
        r@ == octal_all(s@),
{
    let mut res = s;
    let mut i: usize = 0;
    loop
        invariant
            i <= res@.len(),
            octal_all(res@) == octal_all(s@),
            octal_first(res@, 0) == octal_first(res@, i as int),
        decreases res@.len(), res@.len() - i,
    {
        if i >= res.len() {
            assert(octal_first(res@, i as int) == None::<int>);
            return res;
        }
        let n = octal_len_at(&res, i);
        if n > 0 {
            proof {
                lemma_octal_len_bound(res@, i as int);
                lemma_run_digits(res@, i + 2, if res@[i + 1] == 48 { 3 } else { 2 }, 8);
            }
            let b = read_digits(&res, i + 1, n - 1, 8);
            let t = splice_exec(&res, i, n, b);
            res = t;
            i = 0;
        } else {
            i = i + 1;
        }
    }
}

/// The length of the hexadecimal escape at `i` (0 where none starts there): a backslash,
/// an `x` and up to two hexadecimal digits. With no digit it is left as it stands.
pub open spec fn hex_len(s: Seq<u32>, i: int) -> nat {
    if 0 <= i && i + 1 < s.len() && s[i] == BACKSLASH && s[i + 1] == HEX_LETTER {
        2 + digit_run(s, i + 2, 2, 16)
    } else {
        0
    }
}

/// The byte that the hexadecimal escape at `i` stands for.
pub open spec fn hex_byte(s: Seq<u32>, i: int) -> u32 {
    saturate(digits_value(s, i + 2, (hex_len(s, i) - 2) as nat, 16))
}

/// The first position from `i` on where a hexadecimal escape starts.
pub open spec fn hex_first(s: Seq<u32>, i: int) -> Option<int>
    decreases s.len() - i,
{
    if i < 0 || i >= s.len() {
        None
    } else if hex_len(s, i) > 0 {
        Some(i)
    } else {
        hex_first(s, i + 1)
    }
}

/// Replaces hexadecimal escapes from position `from` on, the leftmost one first, until
/// none is left; a bare `\x` is passed over and the search goes on behind it.
pub open spec fn hex_all(s: Seq<u32>, from: int) -> Seq<u32>
    decreases s.len() - from,
{
    match hex_first(s, from) {
        Some(p) => {
            let n = hex_len(s, p) as int;
            // Always true of a match; the test states the measure of the recursion.
            if from <= p && 2 <= n && p + n <= s.len() {
                if n == 2 {
                    hex_all(s, p + 2)
                } else {
                    hex_all(splice(s, p, n, hex_byte(s, p)), from)
                }
            } else {
                s
            }
        },
        None => s,
    }
}

proof fn lemma_hex_len_bound(s: Seq<u32>, i: int)
    ensures
        hex_len(s, i) > 0 ==> 2 <= hex_len(s, i) <= 4 && i + hex_len(s, i) <= s.len(),
{
    if 0 <= i && i + 1 < s.len() && s[i] == BACKSLASH && s[i + 1] == HEX_LETTER {
        lemma_digit_run_bound(s, i + 2, 2, 16);
    }
}

/// The length of the hexadecimal escape at `i`, 0 where none starts there.
fn hex_len_at(s: &Vec<u32>, i: usize) -> (n: usize)
    ensures
        n == hex_len(s@, i as int),
{
    if i < s.len() && s.len() - i > 1 && s[i] == BACKSLASH && s[i + 1] == HEX_LETTER {
        2 + count_digits(s, i + 2, 2, 16)
    } else {
        0
    }
}

/// Replaces hexadecimal escapes, the leftmost one first, until none is left.
pub fn replace_hex(s: Vec<u32>) -> (r: Vec<u32>)
    ensures
        r@ == hex_all(s@, 0),
{
    let mut res = s;
    let mut from: usize = 0;
    let mut i: usize = 0;
    loop
        invariant
            from <= i <= res@.len(),
            hex_all(res@, from as int) == hex_all(s@, 0),
            hex_first(res@, from as int) == hex_first(res@, i as int),
        decreases res@.len() - from, res@.len() - i,
    {
        if i >= res.len() {
            assert(hex_first(res@, i as int) == None::<int>);
            return res;
        }
        let n = hex_len_at(&res, i);
        if n > 0 {
            proof {
                lemma_hex_len_bound(res@, i as int);
            }
            if n == 2 {
                from = i + 2;
                i = i + 2;
            } else {
                proof {
                    lemma_run_digits(res@, i + 2, 2, 16);
                }
                let b = read_digits(&res, i + 2, n - 2, 16);
                let t = splice_exec(&res, i, n, b);
                res = t;
                i = from;
            }
        } else {
            i = i + 1;
        }
    }
}

/// The control character that a backslash and the letter `c` stand for, if any:
/// `\a \b \e \f \n \r \t \v`.
pub open spec fn simple_code(c: u32) -> Option<u32> {
    if c == 97 {
        Some(7)
    } else if c == 98 {
        Some(8)
    } else if c == 101 {
        Some(27)
    } else if c == 102 {
        Some(12)
    } else if c == 110 {
        Some(10)
    } else if c == 114 {
        Some(13)
    } else if c == 116 {
        Some(9)
    } else if c == 118 {
        Some(11)
    } else {
        None
    }
}

fn simple_code_exec(c: u32) -> (r: Option<u32>)
    ensures
        r == simple_code(c),
{
    if c == 97 {
        Some(7)
    } else if c == 98 {
        Some(8)
    } else if c == 101 {
        Some(27)
    } else if c == 102 {
        Some(12)
    } else if c == 110 {
        Some(10)
    } else if c == 114 {
        Some(13)
    } else if c == 116 {
        Some(9)
    } else if c == 118 {
        Some(11)
    } else {
        None
    }
}

/// `s` from position `i` on, with each of the simple sequences replaced by its character.
pub open spec fn simple_from(s: Seq<u32>, i: int) -> Seq<u32>
    decreases s.len() - i,
{
    if i < 0 || i >= s.len() {
        seq![]
    } else if i + 1 < s.len() && s[i] == BACKSLASH && simple_code(s[i + 1]) is Some {
        seq![simple_code(s[i + 1])->Some_0] + simple_from(s, i + 2)
    } else {
        seq![s[i]] + simple_from(s, i + 1)
    }
}

/// Replaces every simple sequence by its control character.
pub fn replace_simple(s: &Vec<u32>) -> (r: Vec<u32>)
    ensures
        r@ == simple_from(s@, 0),
{
    let mut r: Vec<u32> = Vec::new();
    let mut i: usize = 0;
    while i < s.len()
        invariant
            i <= s@.len(),
            simple_from(s@, 0) == r@ + simple_from(s@, i as int),
        decreases s@.len() - i,
    {
        if s.len() - i > 1 && s[i] == BACKSLASH {
            if let Some(c) = simple_code_exec(s[i + 1]) {
                r.push(c);
                i = i + 2;
                assert(simple_from(s@, 0) == r@ + simple_from(s@, i as int));
                continue;
            }
        }
        r.push(s[i]);
        i = i + 1;
        assert(simple_from(s@, 0) == r@ + simple_from(s@, i as int));
    }
    assert(simple_from(s@, i as int) =~= seq![]);
    assert(r@ =~= r@ + seq![]);
    r
}

/// The first position from `i` on where `\c` stands.
pub open spec fn stop_from(s: Seq<u32>, i: int) -> Option<int>
    decreases s.len() - i,
{
    if i < 0 || i + 1 >= s.len() {
        None
    } else if s[i] == BACKSLASH && s[i + 1] == STOP_LETTER {
        Some(i)
    } else {
        stop_from(s, i + 1)
    }
}

proof fn lemma_stop_bound(s: Seq<u32>, i: int)
    ensures
        stop_from(s, i) matches Some(p) ==> i <= p && p + 1 < s.len(),
    decreases s.len() - i,
{
    if !(i < 0 || i + 1 >= s.len()) && !(s[i] == BACKSLASH && s[i + 1] == STOP_LETTER) {
        lemma_stop_bound(s, i + 1);
    }
}

/// Where the first `\c` stands.
fn find_stop(s: &Vec<u32>) -> (r: Option<usize>)
    ensures
        r matches Some(p) ==> stop_from(s@, 0) == Some(p as int),
        r is None ==> stop_from(s@, 0) is None,
{
    let mut i: usize = 0;
    while i < s.len() && s.len() - i > 1
        invariant
            i <= s@.len(),
            stop_from(s@, 0) == stop_from(s@, i as int),
        decreases s@.len() - i,
    {
        if s[i] == BACKSLASH && s[i + 1] == STOP_LETTER {
            return Some(i);
        }
        i = i + 1;
    }
    None
}

/// What one segment between doubled backslashes becomes, and whether a `\c` ended it: the
/// part before the `\c` is still decoded.
pub open spec fn segment_out(s: Seq<u32>) -> (Seq<u32>, bool) {
    let t = simple_from(s, 0);
    match stop_from(t, 0) {
        Some(p) => (hex_all(octal_all(t.take(p)), 0), true),
        None => (hex_all(octal_all(t), 0), false),
    }
}

fn render_segment(s: &Vec<u32>) -> (r: (Vec<u32>, bool))
    ensures
        (r.0@, r.1) == segment_out(s@),
{
    let t = replace_simple(s);
    match find_stop(&t) {
        Some(p) => {
            proof {
                lemma_stop_bound(t@, 0);
            }
            let mut out: Vec<u32> = Vec::new();
            let mut k: usize = 0;
            while k < p
                invariant
                    k <= p < t@.len(),
                    out@ == t@.take(k as int),
                decreases p - k,
            {
                out.push(t[k]);
                k = k + 1;
                assert(out@ =~= t@.take(k as int));
            }
            (replace_hex(replace_octal(out)), true)
        },
        None => (replace_hex(replace_octal(t)), false),
    }
}

/// The segments of `s` between doubled backslashes, read from position `i` on, where the
/// current segment began at `start`.
pub open spec fn split_from(s: Seq<u32>, start: int, i: int) -> Seq<Seq<u32>>
    decreases s.len() - i,
{
    if i >= s.len() {
        seq![s.subrange(start, s.len() as int)]
    } else if i + 1 < s.len() && s[i] == BACKSLASH && s[i + 1] == BACKSLASH {
        seq![s.subrange(start, i)] + split_from(s, i + 2, i + 2)
    } else {
        split_from(s, start, i + 1)
    }
}

/// Joins the rendered segments from `k` on, a backslash before each but the first, up to
/// the segment where a `\c` ends the output; says whether one did.
pub open spec fn join_from(segs: Seq<Seq<u32>>, k: int) -> (Seq<u32>, bool)
    decreases segs.len() - k,
{
    if k < 0 || k >= segs.len() {
        (seq![], false)
    } else {
        let (o, stop) = segment_out(segs[k]);
        let head = if k == 0 {
            o
        } else {
            seq![BACKSLASH] + o
        };
        if stop {
            (head, true)
        } else {
            let rest = join_from(segs, k + 1);
            (head + rest.0, rest.1)
        }
    }
}

/// The code points that `s` becomes with escapes interpreted, and whether a `\c` ended it.
pub open spec fn interpreted(s: Seq<u32>) -> (Seq<u32>, bool) {
    join_from(split_from(s, 0, 0), 0)
}

/// Splits `s` on doubled backslashes.
fn split_segments(s: &Vec<u32>) -> (r: Vec<Vec<u32>>)
    ensures
        r@.map_values(|v: Vec<u32>| v@) == split_from(s@, 0, 0),
{
    let mut r: Vec<Vec<u32>> = Vec::new();
    let mut cur: Vec<u32> = Vec::new();
    let ghost mut start: int = 0;
    let mut i: usize = 0;
    while i < s.len()
        invariant
            0 <= start <= i <= s@.len(),
            cur@ == s@.subrange(start, i as int),
            split_from(s@, 0, 0) == r@.map_values(|v: Vec<u32>| v@) + split_from(
                s@,
                start,
                i as int,
            ),
        decreases s@.len() - i,
    {
        if s.len() - i > 1 && s[i] == BACKSLASH && s[i + 1] == BACKSLASH {
            let ghost old_r = r@;
            r.push(cur);
            cur = Vec::new();
            assert(r@.map_values(|v: Vec<u32>| v@) =~= old_r.map_values(|v: Vec<u32>| v@)
                + seq![s@.subrange(start, i as int)]);
            i = i + 2;
            proof {
                start = i as int;
            }
            assert(cur@ =~= s@.subrange(start, i as int));
        } else {
            cur.push(s[i]);
            i = i + 1;
            assert(cur@ =~= s@.subrange(start, i as int));
        }
    }
    let ghost old_r = r@;
    r.push(cur);
    assert(r@.map_values(|v: Vec<u32>| v@) =~= old_r.map_values(|v: Vec<u32>| v@) + seq![
        s@.subrange(start, s@.len() as int),
    ]);
    r
}

/// Interprets the escapes of `s`; also says whether a `\c` ended the output.
pub fn interpret_escapes(s: &Vec<u32>) -> (r: (Vec<u32>, bool))
    ensures
        (r.0@, r.1) == interpreted(s@),
{
    let segs = split_segments(s);
    let ghost sv = segs@.map_values(|v: Vec<u32>| v@);
    let mut out: Vec<u32> = Vec::new();
    let mut k: usize = 0;
    while k < segs.len()
        invariant
            k <= segs@.len(),
            sv == segs@.map_values(|v: Vec<u32>| v@),
            interpreted(s@) == (out@ + join_from(sv, k as int).0, join_from(sv, k as int).1),
        decreases segs@.len() - k,
    {
        assert(sv[k as int] == segs@[k as int]@);
        let (o, stop) = render_segment(&segs[k]);
        if k > 0 {
            out.push(BACKSLASH);
        }
        let ghost before = out@;
        out.append(&mut o.clone());
        if stop {
            assert(out@ =~= before + o@);
            assert(interpreted(s@).0 =~= out@);
            return (out, true);
        }
        k = k + 1;
        assert(interpreted(s@).0 =~= out@ + join_from(sv, k as int).0);
    }
    assert(out@ =~= out@ + seq![]);
    (out, false)
}

} // verus!
