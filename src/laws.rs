use vstd::prelude::*;

use crate::echo::{flag_of, flag_word, render, run, Echo, Flag, Settings};
use crate::escape::{
    codes, hex_all, hex_first, interpreted, join_from, low_bytes, octal_all, octal_first,
    segment_out, simple_code, simple_from, split_from, stop_from, BACKSLASH, STOP_LETTER,
};

verus! {

/// Each argument preceded by a space, in low bytes.
pub open spec fn spaced(args: Seq<Seq<char>>) -> Seq<u8>
    decreases args.len(),
{
    if args.len() == 0 {
        seq![]
    } else {
        seq![32u8] + low_bytes(codes(args[0])) + spaced(args.skip(1))
    }
}

/// The arguments joined by single spaces, in low bytes.
pub open spec fn joined(args: Seq<Seq<char>>) -> Seq<u8> {
    if args.len() == 0 {
        seq![]
    } else {
        low_bytes(codes(args[0])) + spaced(args.skip(1))
    }
}

/// `e` with the trailing newline turned off.
pub open spec fn without_newline(e: Echo) -> Echo {
    Echo { settings: Settings { trailing_newline: false, ..e.settings }, ..e }
}

proof fn lemma_literal_phase(e: Echo, args: Seq<Seq<char>>)
    requires
        !e.reading_flags,
        e.echoed,
        !e.ended,
        !e.settings.interpret_backslash_escapes,
    ensures
        run(e, args) == (None::<Flag>, spaced(args), e),
    decreases args.len(),
{
    if args.len() > 0 {
        assert(e.after(args[0]) == e);
        lemma_literal_phase(e, args.skip(1));
        assert(e.written(args[0]) + spaced(args.skip(1)) =~= spaced(args));
    }
}

/// When the first argument is no recognized option, the output is the arguments joined by
/// single spaces, one byte per character, followed by a newline: later arguments that
/// spell an option are written as text.
pub proof fn lemma_plain_echo(args: Seq<Seq<char>>)
    requires
        args.len() == 0 || flag_of(args[0]) is None,
    ensures
        run(Echo::start(), args).0 is None,
        run(Echo::start(), args).1 + run(Echo::start(), args).2.ending() == joined(args) + seq![
            10u8,
        ],
{
    let e = Echo::start();
    if args.len() == 0 {
        assert(seq![10u8] =~= joined(args) + seq![10u8]);
    } else {
        let e1 = e.after(args[0]);
        lemma_literal_phase(e1, args.skip(1));
        assert(e.written(args[0]) =~= low_bytes(codes(args[0])));
    }
}

proof fn lemma_newline_off(e: Echo, args: Seq<Seq<char>>)
    ensures
        run(without_newline(e), args) == (
            run(e, args).0,
            run(e, args).1,
            without_newline(run(e, args).2),
        ),
    decreases args.len(),
{
    if args.len() > 0 {
        let a = args[0];
        assert(without_newline(e).after(a) == without_newline(e.after(a)));
        assert(without_newline(e).written(a) == e.written(a));
        lemma_newline_off(e.after(a), args.skip(1));
    }
}

/// A leading `-n` changes nothing but turning the trailing newline off.
pub proof fn lemma_no_newline_flag(args: Seq<Seq<char>>)
    ensures
        run(Echo::start(), seq![flag_word(Flag::NoNewline)] + args) == (
            run(Echo::start(), args).0,
            run(Echo::start(), args).1,
            without_newline(run(Echo::start(), args).2),
        ),
        without_newline(run(Echo::start(), args).2).ending() == Seq::<u8>::empty(),
{
    let all = seq![flag_word(Flag::NoNewline)] + args;
    assert(all[0] == flag_word(Flag::NoNewline));
    assert(all.skip(1) =~= args);
    assert(Echo::start().after(all[0]) == without_newline(Echo::start()));
    lemma_newline_off(Echo::start(), args);
}

/// While options are read, `-e` followed by `-E` acts as the `-E` alone: the last of the
/// two wins.
pub proof fn lemma_escapes_then_no_escapes(e: Echo, args: Seq<Seq<char>>)
    requires
        e.reading_flags,
        !e.ended,
    ensures
        run(e, seq![flag_word(Flag::Escapes), flag_word(Flag::NoEscapes)] + args) == run(
            e,
            seq![flag_word(Flag::NoEscapes)] + args,
        ),
{
    let we = flag_word(Flag::Escapes);
    let wn = flag_word(Flag::NoEscapes);
    assert(we[1] != flag_word(Flag::NoNewline)[1]);
    assert(wn[1] != flag_word(Flag::NoNewline)[1]);
    assert(wn[1] != we[1]);
    assert(flag_of(we) == Some(Flag::Escapes));
    assert(flag_of(wn) == Some(Flag::NoEscapes));
    let two = seq![we, wn] + args;
    let one = seq![wn] + args;
    assert(two[0] == we);
    assert(two.skip(1) =~= one);
    assert(one[0] == wn);
    assert(e.after(we).after(wn) == e.after(wn));
    assert(run(e, two) == run(e.after(we), one));
    assert(one.skip(1) =~= args);
}

proof fn lemma_ended(e: Echo, args: Seq<Seq<char>>)
    requires
        e.wf(),
        e.ended,
    ensures
        run(e, args) == (None::<Flag>, Seq::<u8>::empty(), e),
    decreases args.len(),
{
    if args.len() > 0 {
        lemma_ended(e, args.skip(1));
        assert(e.written(args[0]) + Seq::<u8>::empty() =~= Seq::<u8>::empty());
    }
}

/// Whether `t` holds a `c` at `q` right after a run of backslashes from `j` of odd length,
/// with no backslash just before the run: the last backslash is not escaped.
pub open spec fn unescaped_stop_at(t: Seq<u32>, j: int, q: int) -> bool {
    &&& 0 <= j < q < t.len()
    &&& t[q] == STOP_LETTER
    &&& (q - j) % 2 == 1
    &&& forall|k: int| j <= k < q ==> t[k] == BACKSLASH
    &&& (j == 0 || t[j - 1] != BACKSLASH)
}

/// Whether a backslash followed by `c` stands in `t` at `m`.
pub open spec fn stop_pair_at(t: Seq<u32>, m: int) -> bool {
    0 <= m && m + 1 < t.len() && t[m] == BACKSLASH && t[m + 1] == STOP_LETTER
}

/// Whether `t` holds a backslash followed by `c`.
pub open spec fn has_stop_pair(t: Seq<u32>) -> bool {
    exists|m: int| #[trigger] stop_pair_at(t, m)
}

/// Whether one of the segments holds a backslash followed by `c`.
pub open spec fn some_segment_stops(segs: Seq<Seq<u32>>) -> bool {
    exists|k: int| 0 <= k < segs.len() && has_stop_pair(#[trigger] segs[k])
}

proof fn lemma_stop_in_prepended(x: Seq<Seq<u32>>, segs: Seq<Seq<u32>>)
    requires
        some_segment_stops(segs),
    ensures
        some_segment_stops(x + segs),
{
    let k = choose|k: int| 0 <= k < segs.len() && has_stop_pair(#[trigger] segs[k]);
    assert((x + segs)[x.len() + k] == segs[k]);
}

proof fn lemma_split_keeps_pair(t: Seq<u32>, start: int, q: int, r: int)
    requires
        0 <= start <= q - 1,
        q + 1 <= r <= t.len(),
        t[q - 1] == BACKSLASH,
        t[q] == STOP_LETTER,
    ensures
        some_segment_stops(split_from(t, start, r)),
    decreases t.len() - r,
{
    if r >= t.len() {
        let seg = t.subrange(start, t.len() as int);
        assert(seg[q - 1 - start] == BACKSLASH && seg[q - start] == STOP_LETTER);
        assert(stop_pair_at(seg, q - 1 - start));
        assert(split_from(t, start, r)[0] == seg);
        assert(has_stop_pair(split_from(t, start, r)[0]));
    } else if r + 1 < t.len() && t[r] == BACKSLASH && t[r + 1] == BACKSLASH {
        let seg = t.subrange(start, r);
        assert(seg[q - 1 - start] == BACKSLASH && seg[q - start] == STOP_LETTER);
        assert(stop_pair_at(seg, q - 1 - start));
        assert(split_from(t, start, r)[0] == seg);
        assert(has_stop_pair(split_from(t, start, r)[0]));
    } else {
        lemma_split_keeps_pair(t, start, q, r + 1);
    }
}

proof fn lemma_split_run(t: Seq<u32>, start: int, p: int, q: int)
    requires
        0 <= start <= p <= q - 1,
        q < t.len(),
        t[q] == STOP_LETTER,
        forall|k: int| p <= k < q ==> t[k] == BACKSLASH,
        (q - 1 - p) % 2 == 0,
    ensures
        some_segment_stops(split_from(t, start, p)),
    decreases q - p,
{
    if p == q - 1 {
        assert(split_from(t, start, p) == split_from(t, start, q));
        assert(split_from(t, start, q) == split_from(t, start, q + 1));
        lemma_split_keeps_pair(t, start, q, q + 1);
    } else {
        assert(t[p] == BACKSLASH && t[p + 1] == BACKSLASH);
        lemma_split_run(t, p + 2, p + 2, q);
        lemma_stop_in_prepended(seq![t.subrange(start, p)], split_from(t, p + 2, p + 2));
    }
}

proof fn lemma_split_reaches_run(t: Seq<u32>, start: int, p: int, j: int, q: int)
    requires
        0 <= start <= p <= j,
        unescaped_stop_at(t, j, q),
    ensures
        some_segment_stops(split_from(t, start, p)),
    decreases j - p,
{
    if p == j {
        lemma_split_run(t, start, j, q);
    } else if p + 1 < t.len() && t[p] == BACKSLASH && t[p + 1] == BACKSLASH {
        assert(p + 2 <= j);
        lemma_split_reaches_run(t, p + 2, p + 2, j, q);
        lemma_stop_in_prepended(seq![t.subrange(start, p)], split_from(t, p + 2, p + 2));
    } else {
        lemma_split_reaches_run(t, start, p + 1, j, q);
    }
}

proof fn lemma_simple_keeps_pair(s: Seq<u32>, i: int, m: int)
    requires
        0 <= i <= m,
        m + 1 < s.len(),
        s[m] == BACKSLASH,
        s[m + 1] == STOP_LETTER,
    ensures
        has_stop_pair(simple_from(s, i)),
    decreases m - i,
{
    assert(simple_code(BACKSLASH) is None);
    assert(simple_code(STOP_LETTER) is None);
    if i == m {
        let r = simple_from(s, i);
        let r1 = simple_from(s, m + 1);
        assert(r1 == seq![s[m + 1]] + simple_from(s, m + 2));
        assert(r == seq![s[m]] + r1);
        assert(r[0] == BACKSLASH && r[1] == STOP_LETTER);
        assert(stop_pair_at(r, 0));
    } else if i + 1 < s.len() && s[i] == BACKSLASH && simple_code(s[i + 1]) is Some {
        lemma_simple_keeps_pair(s, i + 2, m);
        let rest = simple_from(s, i + 2);
        let k = choose|k: int| stop_pair_at(rest, k);
        assert(simple_from(s, i)[k + 1] == BACKSLASH);
        assert(simple_from(s, i)[k + 2] == STOP_LETTER);
        assert(stop_pair_at(simple_from(s, i), k + 1));
    } else {
        lemma_simple_keeps_pair(s, i + 1, m);
        let rest = simple_from(s, i + 1);
        let k = choose|k: int| stop_pair_at(rest, k);
        assert(simple_from(s, i)[k + 1] == BACKSLASH);
        assert(simple_from(s, i)[k + 2] == STOP_LETTER);
        assert(stop_pair_at(simple_from(s, i), k + 1));
    }
}

proof fn lemma_pair_found(t: Seq<u32>, i: int, m: int)
    requires
        0 <= i <= m,
        m + 1 < t.len(),
        t[m] == BACKSLASH,
        t[m + 1] == STOP_LETTER,
    ensures
        stop_from(t, i) is Some,
    decreases m - i,
{
    if i < m && !(t[i] == BACKSLASH && t[i + 1] == STOP_LETTER) {
        lemma_pair_found(t, i + 1, m);
    }
}

proof fn lemma_join_stops(segs: Seq<Seq<u32>>, k0: int, k: int)
    requires
        0 <= k0 <= k < segs.len(),
        segment_out(segs[k]).1,
    ensures
        join_from(segs, k0).1,
    decreases k - k0,
{
    if k0 < k && !segment_out(segs[k0]).1 {
        lemma_join_stops(segs, k0 + 1, k);
    }
}

/// With escapes interpreted, a `\c` whose backslash is not itself escaped always ends the
/// output.
pub proof fn lemma_unescaped_stop_found(a: Seq<char>, j: int, q: int)
    requires
        unescaped_stop_at(codes(a), j, q),
    ensures
        render(a, true).1,
{
    let t = codes(a);
    let segs = split_from(t, 0, 0);
    lemma_split_reaches_run(t, 0, 0, j, q);
    let k = choose|k: int| 0 <= k < segs.len() && has_stop_pair(#[trigger] segs[k]);
    let seg = segs[k];
    let m = choose|m: int| stop_pair_at(seg, m);
    lemma_simple_keeps_pair(seg, 0, m);
    let st = simple_from(seg, 0);
    let m2 = choose|m2: int| stop_pair_at(st, m2);
    lemma_pair_found(st, 0, m2);
    assert(segment_out(seg).1);
    lemma_join_stops(segs, 0, k);
}

/// With escapes interpreted, an argument holding a `\c` whose backslash is not itself
/// escaped is the last one written: the arguments after it are discarded and no newline
/// follows.
pub proof fn lemma_stop_ends_output(e: Echo, a: Seq<char>, rest: Seq<Seq<char>>, j: int, q: int)
    requires
        e.wf(),
        !e.ended,
        !e.takes_flag(a),
        e.settings.interpret_backslash_escapes,
        unescaped_stop_at(codes(a), j, q),
    ensures
        run(e, seq![a] + rest) == (None::<Flag>, e.written(a), e.after(a)),
        e.after(a).ending() == Seq::<u8>::empty(),
{
    lemma_unescaped_stop_found(a, j, q);
    let all = seq![a] + rest;
    assert(all[0] == a);
    assert(all.skip(1) =~= rest);
    lemma_ended(e.after(a), rest);
    assert(e.written(a) + Seq::<u8>::empty() =~= e.written(a));
}

proof fn lemma_options_then_exit(e: Echo, pre: Seq<Seq<char>>, f: Flag, rest: Seq<Seq<char>>)
    requires
        e.reading_flags,
        !e.ended,
        f == Flag::Help || f == Flag::Version,
        forall|k: int|
            0 <= k < pre.len() ==> (#[trigger] flag_of(pre[k]) is Some) && flag_of(pre[k])
                != Some(Flag::Help) && flag_of(pre[k]) != Some(Flag::Version),
    ensures
        run(e, pre + seq![flag_word(f)] + rest).0 == Some(f),
        run(e, pre + seq![flag_word(f)] + rest).1 == Seq::<u8>::empty(),
    decreases pre.len(),
{
    let all = pre + seq![flag_word(f)] + rest;
    assert(flag_word(Flag::Help).len() != flag_word(Flag::NoNewline).len());
    assert(flag_word(Flag::Version).len() != flag_word(Flag::NoNewline).len());
    assert(flag_word(Flag::Version).len() != flag_word(Flag::Help).len());
    if pre.len() == 0 {
        assert(all[0] == flag_word(f));
    } else {
        assert(all[0] == pre[0]);
        assert(flag_of(pre[0]) is Some);
        let p2 = pre.skip(1);
        assert forall|k: int| 0 <= k < p2.len() implies (#[trigger] flag_of(p2[k]) is Some)
            && flag_of(p2[k]) != Some(Flag::Help) && flag_of(p2[k]) != Some(Flag::Version) by {
            assert(p2[k] == pre[k + 1]);
        }
        assert(all.skip(1) =~= p2 + seq![flag_word(f)] + rest);
        lemma_options_then_exit(e.after(pre[0]), p2, f, rest);
        assert(e.written(pre[0]) + Seq::<u8>::empty() =~= Seq::<u8>::empty());
    }
}

/// `--help` or `--version`, given after nothing but other options, ends the run with its
/// text and writes nothing else, whatever follows it.
pub proof fn lemma_help_and_version_win(pre: Seq<Seq<char>>, f: Flag, rest: Seq<Seq<char>>)
    requires
        f == Flag::Help || f == Flag::Version,
        forall|k: int|
            0 <= k < pre.len() ==> (#[trigger] flag_of(pre[k]) is Some) && flag_of(pre[k])
                != Some(Flag::Help) && flag_of(pre[k]) != Some(Flag::Version),
    ensures
        run(Echo::start(), pre + seq![flag_word(f)] + rest).0 == Some(f),
        run(Echo::start(), pre + seq![flag_word(f)] + rest).1 == Seq::<u8>::empty(),
{
    lemma_options_then_exit(Echo::start(), pre, f, rest);
}

/// Whether `t` holds no backslash.
pub open spec fn free_of_backslash(t: Seq<u32>) -> bool {
    forall|k: int| 0 <= k < t.len() ==> t[k] != BACKSLASH
}

proof fn lemma_plain_split(t: Seq<u32>, start: int, i: int)
    requires
        free_of_backslash(t),
        0 <= start <= i <= t.len(),
    ensures
        split_from(t, start, i) == seq![t.subrange(start, t.len() as int)],
    decreases t.len() - i,
{
    if i < t.len() {
        lemma_plain_split(t, start, i + 1);
    }
}

proof fn lemma_plain_simple(t: Seq<u32>, i: int)
    requires
        free_of_backslash(t),
        0 <= i <= t.len(),
    ensures
        simple_from(t, i) == t.skip(i),
    decreases t.len() - i,
{
    if i < t.len() {
        lemma_plain_simple(t, i + 1);
        assert(seq![t[i]] + t.skip(i + 1) =~= t.skip(i));
    } else {
        assert(t.skip(i) =~= Seq::<u32>::empty());
    }
}

proof fn lemma_plain_scans(t: Seq<u32>, i: int)
    requires
        free_of_backslash(t),
        0 <= i,
    ensures
        stop_from(t, i) is None,
        octal_first(t, i) is None,
        hex_first(t, i) is None,
    decreases t.len() - i,
{
    if i < t.len() {
        lemma_plain_scans(t, i + 1);
    }
}

/// On an argument without a backslash, interpreting escapes changes nothing.
pub proof fn lemma_no_backslash_unchanged(a: Seq<char>)
    requires
        forall|k: int| 0 <= k < a.len() ==> a[k] != '\\',
    ensures
        render(a, true) == render(a, false),
        render(a, false) == (low_bytes(codes(a)), false),
{
    let t = codes(a);
    assert forall|k: int| 0 <= k < t.len() implies t[k] != BACKSLASH by {
        assert(a[k] != '\\');
        if t[k] == BACKSLASH {
            vstd::utf8::char_u32_cast(a[k], BACKSLASH);
            assert((BACKSLASH as char) == '\\');
        }
    }
    lemma_plain_split(t, 0, 0);
    assert(t.subrange(0, t.len() as int) =~= t);
    lemma_plain_simple(t, 0);
    assert(t.skip(0) =~= t);
    lemma_plain_scans(t, 0);
    assert(octal_all(t) == t);
    assert(hex_all(t, 0) == t);
    assert(segment_out(t) == (t, false));
    let segs = split_from(t, 0, 0);
    assert(join_from(segs, 1) == (Seq::<u32>::empty(), false));
    assert(t + Seq::<u32>::empty() =~= t);
    assert(interpreted(t) == (t, false));
}

} // verus!
