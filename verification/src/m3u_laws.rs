//! Reading back an exported m3u8 playlist.

use vstd::prelude::*;

use crate::floats::is_float_literal;
use crate::playlist::{
    dash_sep, display_title, entries_text, entry_text, extinf, looks_absolute, m3u_document,
    m3u_run, m3u_step, m3u_tracks, resolved_path, M3uEntry, M3uState, RawTrackS,
};
use crate::text::{
    find_char, find_seq, has_char, is_ws, lead_ws, lemma_find_char, lemma_lead_ws_bound,
    lemma_lines_append, lemma_one_line, lemma_trail_ws_bound, lines, starts_with, strip_cr,
    trail_ws, trim, trim_start,
};

verus! {

/// A text that fits on one line: no line feed, no carriage return.
pub open spec fn one_line(s: Seq<char>) -> bool {
    !has_char(s, '\n') && !has_char(s, '\r')
}

/// The `#EXTINF` line written for an entry.
pub open spec fn extinf_line(e: M3uEntry) -> Seq<char> {
    "#EXTINF:"@ + e.duration@ + seq![','] + display_title(e.path@, e.title@)
}

/// The lines written for the first `n` entries.
pub open spec fn entry_lines(es: Seq<M3uEntry>, n: int) -> Seq<Seq<char>>
    decreases n,
{
    if n <= 0 {
        seq![]
    } else {
        entry_lines(es, n - 1).push(extinf_line(es[n - 1])).push(es[n - 1].path@)
    }
}

/// The header lines written for a playlist name.
pub open spec fn header_lines(name: Seq<char>) -> Seq<Seq<char>> {
    if name.len() > 0 {
        seq!["#EXTM3U"@, "#PLAYLIST:"@ + name]
    } else {
        seq!["#EXTM3U"@]
    }
}

/// An entry that reads back as it was written: its duration, title and
/// path each fit on one line, and its path is a trimmed line that is not a
/// comment and that resolving leaves as it is.
pub open spec fn plain_entry(e: M3uEntry, base: Option<Seq<char>>) -> bool {
    &&& one_line(e.duration@)
    &&& one_line(display_title(e.path@, e.title@))
    &&& one_line(e.path@)
    &&& e.path@.len() > 0
    &&& e.path@[0] != '#'
    &&& trim(e.path@) == e.path@
    &&& (looks_absolute(e.path@) || base is None)
}

proof fn lemma_no_char_concat(a: Seq<char>, b: Seq<char>, c: char)
    requires
        !has_char(a, c),
        !has_char(b, c),
    ensures
        !has_char(a + b, c),
{
    assert forall|i: int| 0 <= i < (a + b).len() implies (a + b)[i] != c by {
        if i < a.len() {
            assert((a + b)[i] == a[i]);
        } else {
            assert((a + b)[i] == b[i - a.len()]);
        }
    }
}

proof fn lemma_one_line_concat(a: Seq<char>, b: Seq<char>)
    requires
        one_line(a),
        one_line(b),
    ensures
        one_line(a + b),
{
    lemma_no_char_concat(a, b, '\n');
    lemma_no_char_concat(a, b, '\r');
}

proof fn lemma_strip_cr_one_line(a: Seq<char>)
    requires
        one_line(a),
    ensures
        strip_cr(a) == a,
{
    if a.len() > 0 {
        assert(a[a.len() - 1] != '\r');
    }
}

proof fn lemma_literal_one_line(a: Seq<char>)
    requires
        forall|i: int| 0 <= i < a.len() ==> a[i] != '\n' && a[i] != '\r',
    ensures
        one_line(a),
{
}

proof fn lemma_extinf_line(e: M3uEntry, base: Option<Seq<char>>)
    requires
        plain_entry(e, base),
    ensures
        one_line(extinf_line(e)),
        extinf_line(e).len() > 0,
        extinf_line(e)[0] == '#',
{
    reveal_strlit("#EXTINF:");
    lemma_literal_one_line("#EXTINF:"@);
    lemma_literal_one_line(seq![',']);
    lemma_one_line_concat("#EXTINF:"@, e.duration@);
    lemma_one_line_concat("#EXTINF:"@ + e.duration@, seq![',']);
    lemma_one_line_concat("#EXTINF:"@ + e.duration@ + seq![','], display_title(e.path@, e.title@));
}

proof fn lemma_entry_text_lines(e: M3uEntry, base: Option<Seq<char>>)
    requires
        plain_entry(e, base),
    ensures
        lines(entry_text(e)) == seq![extinf_line(e), e.path@],
        entry_text(e).last() == '\n',
{
    lemma_extinf_line(e, base);
    let a = extinf_line(e) + seq!['\n'];
    let b = e.path@ + seq!['\n'];
    assert(entry_text(e) =~= a + b);
    lemma_lines_append(a, b);
    lemma_one_line(extinf_line(e));
    lemma_one_line(e.path@);
    lemma_strip_cr_one_line(extinf_line(e));
    lemma_strip_cr_one_line(e.path@);
    assert(lines(a) + lines(b) =~= seq![extinf_line(e), e.path@]);
}

proof fn lemma_entries_lines(es: Seq<M3uEntry>, n: int, base: Option<Seq<char>>)
    requires
        0 <= n <= es.len(),
        forall|k: int| 0 <= k < es.len() ==> plain_entry(#[trigger] es[k], base),
    ensures
        lines(entries_text(es, n)) == entry_lines(es, n),
        n > 0 ==> entries_text(es, n).last() == '\n',
    decreases n,
{
    if n == 0 {
        assert(lines(Seq::<char>::empty()) =~= Seq::<Seq<char>>::empty());
    } else {
        lemma_entries_lines(es, n - 1, base);
        let e = es[n - 1];
        lemma_entry_text_lines(e, base);
        lemma_lines_append(entries_text(es, n - 1), entry_text(e));
        assert(entry_lines(es, n) =~= entry_lines(es, n - 1) + seq![extinf_line(e), e.path@]);
        let t = entry_text(e);
        assert((entries_text(es, n - 1) + t).last() == t.last());
    }
}

proof fn lemma_document_lines(es: Seq<M3uEntry>, name: Seq<char>, base: Option<Seq<char>>)
    requires
        one_line(name),
        forall|k: int| 0 <= k < es.len() ==> plain_entry(#[trigger] es[k], base),
    ensures
        lines(m3u_document(es, name)) == header_lines(name) + entry_lines(es, es.len() as int),
{
    reveal_strlit("#EXTM3U\n");
    reveal_strlit("#EXTM3U");
    reveal_strlit("#PLAYLIST:");
    let p0 = "#EXTM3U\n"@;
    let h = if name.len() > 0 {
        "#PLAYLIST:"@ + name + seq!['\n']
    } else {
        seq![]
    };
    let e = entries_text(es, es.len() as int);
    assert(m3u_document(es, name) =~= (p0 + h) + e);
    lemma_entries_lines(es, es.len() as int, base);
    assert(p0 =~= "#EXTM3U"@ + seq!['\n']);
    lemma_literal_one_line("#EXTM3U"@);
    lemma_one_line("#EXTM3U"@);
    lemma_strip_cr_one_line("#EXTM3U"@);
    lemma_lines_append(p0, h);
    if name.len() > 0 {
        lemma_literal_one_line("#PLAYLIST:"@);
        lemma_one_line_concat("#PLAYLIST:"@, name);
        lemma_one_line("#PLAYLIST:"@ + name);
        lemma_strip_cr_one_line("#PLAYLIST:"@ + name);
        assert((p0 + h).last() == '\n');
    } else {
        assert(p0 + h =~= p0);
        assert(lines(h) =~= Seq::<Seq<char>>::empty());
    }
    lemma_lines_append(p0 + h, e);
    assert(lines(p0) + lines(h) =~= header_lines(name));
}

/// A line that starts with `#` adds no entry.
proof fn lemma_comment_step(st: M3uState, l: Seq<char>, base: Option<Seq<char>>)
    requires
        l.len() > 0,
        l[0] == '#',
    ensures
        m3u_step(st, l, base).tracks == st.tracks,
{
    assert(lead_ws(l) == 0);
    assert(trim_start(l) =~= l);
    lemma_trail_ws_bound(l);
    let t = trim(l);
    assert(t =~= l.take(l.len() - trail_ws(l)));
    if t.len() > 0 {
        assert(t[0] == l[0]);
    }
}

/// A plain path line adds an entry with that path at the next position.
proof fn lemma_path_step(st: M3uState, e: M3uEntry, base: Option<Seq<char>>)
    requires
        plain_entry(e, base),
    ensures
        m3u_step(st, e.path@, base).tracks.len() == st.tracks.len() + 1,
        m3u_step(st, e.path@, base).tracks.drop_last() == st.tracks,
        m3u_step(st, e.path@, base).tracks.last().path == e.path@,
        m3u_step(st, e.path@, base).tracks.last().position == st.tracks.len(),
{
    let p = e.path@;
    assert(extinf()[0] == '#');
    assert(!starts_with(p, extinf())) by {
        if starts_with(p, extinf()) {
            assert(p.subrange(0, extinf().len() as int)[0] == p[0]);
        }
    }
    assert(resolved_path(p, base) == p);
    let r = m3u_step(st, p, base).tracks;
    assert(r.drop_last() =~= st.tracks);
}

proof fn lemma_comments_run(ls: Seq<Seq<char>>, base: Option<Seq<char>>)
    requires
        forall|i: int| 0 <= i < ls.len() ==> (#[trigger] ls[i]).len() > 0 && ls[i][0] == '#',
    ensures
        m3u_run(ls, base).tracks.len() == 0,
    decreases ls.len(),
{
    if ls.len() > 0 {
        lemma_comments_run(ls.drop_last(), base);
        assert(ls[ls.len() - 1] == ls.last());
        lemma_comment_step(m3u_run(ls.drop_last(), base), ls.last(), base);
    }
}

proof fn lemma_entries_run(
    hdr: Seq<Seq<char>>,
    es: Seq<M3uEntry>,
    n: int,
    base: Option<Seq<char>>,
)
    requires
        0 <= n <= es.len(),
        forall|i: int| 0 <= i < hdr.len() ==> (#[trigger] hdr[i]).len() > 0 && hdr[i][0] == '#',
        forall|k: int| 0 <= k < es.len() ==> plain_entry(#[trigger] es[k], base),
    ensures
        m3u_run(hdr + entry_lines(es, n), base).tracks.len() == n,
        forall|k: int|
            0 <= k < n ==> (#[trigger] m3u_run(hdr + entry_lines(es, n), base).tracks[k]).path
                == es[k].path@ && m3u_run(hdr + entry_lines(es, n), base).tracks[k].position == k,
    decreases n,
{
    if n == 0 {
        assert(hdr + entry_lines(es, 0) =~= hdr);
        lemma_comments_run(hdr, base);
    } else {
        lemma_entries_run(hdr, es, n - 1, base);
        let e = es[n - 1];
        let m = hdr + entry_lines(es, n - 1);
        let l1 = extinf_line(e);
        let whole = hdr + entry_lines(es, n);
        assert(whole =~= m.push(l1).push(e.path@));
        assert(whole.drop_last() =~= m.push(l1));
        assert(m.push(l1).drop_last() =~= m);
        lemma_extinf_line(e, base);
        let st0 = m3u_run(m, base);
        lemma_comment_step(st0, l1, base);
        let st1 = m3u_step(st0, l1, base);
        assert(m3u_run(m.push(l1), base) == st1);
        lemma_path_step(st1, e, base);
        let r = m3u_run(whole, base).tracks;
        assert(r == m3u_step(st1, e.path@, base).tracks);
        assert forall|k: int| 0 <= k < n implies (#[trigger] r[k]).path == es[k].path@
            && r[k].position == k by {
            if k < n - 1 {
                assert(r[k] == r.drop_last()[k]);
                assert(r.drop_last()[k] == st0.tracks[k]);
            } else {
                assert(r[k] == r.last());
            }
        }
    }
}

/// Reading back an exported playlist gives its entries again: one per
/// entry, in order, each with the path it was written with and its index as
/// position, whatever the playlist's name. This holds for entries whose
/// texts fit on one line and whose paths are trimmed, are not comments, and
/// stay as they are when resolved against the directory read from.
pub proof fn lemma_m3u_round_trip(es: Seq<M3uEntry>, name: Seq<char>, base: Option<Seq<char>>)
    requires
        one_line(name),
        forall|k: int| 0 <= k < es.len() ==> plain_entry(#[trigger] es[k], base),
    ensures
        m3u_tracks(m3u_document(es, name), base).len() == es.len(),
        forall|k: int|
            0 <= k < es.len() ==> (#[trigger] m3u_tracks(m3u_document(es, name), base)[k]).path
                == es[k].path@ && m3u_tracks(m3u_document(es, name), base)[k].position == k,
{
    reveal_strlit("#EXTM3U");
    reveal_strlit("#PLAYLIST:");
    lemma_document_lines(es, name, base);
    let hdr = header_lines(name);
    assert forall|i: int| 0 <= i < hdr.len() implies (#[trigger] hdr[i]).len() > 0 && hdr[i][0]
        == '#' by {
        if i == 1 {
            assert(hdr[1] == "#PLAYLIST:"@ + name);
            assert(hdr[1][0] == "#PLAYLIST:"@[0]);
        }
    }
    lemma_entries_run(hdr, es, es.len() as int, base);
}

// ─────────────────────── titles and durations ────────────────────────

/// An entry whose title and duration read back too: its duration is
/// trimmed and has no comma, and the title written for it is trimmed, not
/// empty, and has no `" - "` (which reading takes for an artist separator).
pub open spec fn titled_entry(e: M3uEntry) -> bool {
    &&& trim(e.duration@) == e.duration@
    &&& !has_char(e.duration@, ',')
    &&& display_title(e.path@, e.title@).len() > 0
    &&& trim(display_title(e.path@, e.title@)) == display_title(e.path@, e.title@)
    &&& find_seq(display_title(e.path@, e.title@), dash_sep()) is None
}

/// What the `k`-th written entry reads back as: its path, the title
/// written for it, no artist, and its duration when that is a number.
pub open spec fn read_back(e: M3uEntry, k: int) -> RawTrackS {
    RawTrackS {
        position: k,
        path: e.path@,
        title: Some(display_title(e.path@, e.title@)),
        artist: None,
        duration: if is_float_literal(e.duration@) {
            Some(e.duration@)
        } else {
            None
        },
    }
}

proof fn lemma_trail_ws_stop(s: Seq<char>, j: int)
    requires
        0 <= j < s.len(),
        !is_ws(s[j]),
    ensures
        trail_ws(s) <= s.len() - 1 - j,
    decreases s.len(),
{
    if j < s.len() - 1 && is_ws(s.last()) {
        assert(s.drop_last()[j] == s[j]);
        lemma_trail_ws_stop(s.drop_last(), j);
    }
}

proof fn lemma_trim_edges(s: Seq<char>)
    requires
        s.len() > 0,
        trim(s) == s,
    ensures
        !is_ws(s[0]),
        !is_ws(s[s.len() - 1]),
{
    lemma_lead_ws_bound(s);
    lemma_trail_ws_bound(trim_start(s));
    if is_ws(s[0]) {
        assert(lead_ws(s) >= 1);
        assert(trim(s).len() < s.len());
    }
    assert(lead_ws(s) == 0);
    assert(trim_start(s) =~= s);
    if is_ws(s[s.len() - 1]) {
        assert(trail_ws(s) >= 1);
        assert(trim(s).len() < s.len());
    }
}

proof fn lemma_trim_id(s: Seq<char>)
    requires
        s.len() > 0,
        !is_ws(s[0]),
        !is_ws(s[s.len() - 1]),
    ensures
        trim(s) == s,
{
    assert(lead_ws(s) == 0);
    assert(trim_start(s) =~= s);
    assert(trail_ws(s) == 0);
    assert(trim(s) =~= s);
}

/// A `#` line that differs from `#EXTINF` at index `k` changes nothing.
proof fn lemma_comment_keeps(st: M3uState, l: Seq<char>, base: Option<Seq<char>>, k: int)
    requires
        l.len() > 0,
        l[0] == '#',
        0 <= k < 7,
        k < l.len(),
        l[k] != extinf()[k],
        !is_ws(l[k]),
    ensures
        m3u_step(st, l, base) == st,
{
    assert(lead_ws(l) == 0);
    assert(trim_start(l) =~= l);
    lemma_trail_ws_stop(l, k);
    let t = trim(l);
    assert(t =~= l.take(l.len() - trail_ws(l)));
    assert(t.len() > k);
    assert(t[k] == l[k]);
    assert(t[0] == '#');
    if starts_with(t, extinf()) {
        assert(t.subrange(0, 7)[k] == t[k]);
    }
}

proof fn lemma_header_run(name: Seq<char>, base: Option<Seq<char>>)
    requires
        one_line(name),
    ensures
        m3u_run(header_lines(name), base) == (M3uState { tracks: seq![], duration: None, title: None }),
{
    reveal_strlit("#EXTM3U");
    reveal_strlit("#PLAYLIST:");
    let empty = M3uState { tracks: seq![], duration: None, title: None };
    let h = header_lines(name);
    assert(m3u_run(Seq::<Seq<char>>::empty(), base) == empty);
    lemma_comment_keeps(empty, "#EXTM3U"@, base, 4);
    assert(seq!["#EXTM3U"@].drop_last() =~= Seq::<Seq<char>>::empty());
    assert(m3u_run(seq!["#EXTM3U"@], base) == empty);
    if name.len() > 0 {
        let p = "#PLAYLIST:"@ + name;
        assert(p[0] == '#' && p[1] == 'P');
        lemma_comment_keeps(empty, p, base, 1);
        assert(h.drop_last() =~= seq!["#EXTM3U"@]);
    }
}

/// The `#EXTINF` line of a titled entry sets its title and, when a
/// number, its duration.
proof fn lemma_extinf_step(st: M3uState, e: M3uEntry, base: Option<Seq<char>>)
    requires
        plain_entry(e, base),
        titled_entry(e),
        st.duration is None,
        st.title is None,
    ensures
        m3u_step(st, extinf_line(e), base) == (M3uState {
            tracks: st.tracks,
            duration: if is_float_literal(e.duration@) {
                Some(e.duration@)
            } else {
                None
            },
            title: Some(display_title(e.path@, e.title@)),
        }),
{
    reveal_strlit("#EXTINF:");
    let d = e.duration@;
    let t = display_title(e.path@, e.title@);
    let l = extinf_line(e);
    lemma_trim_edges(t);
    assert(l[0] == '#');
    assert(l[l.len() - 1] == t[t.len() - 1]);
    lemma_trim_id(l);
    assert(l.subrange(0, 7) =~= extinf());
    assert(starts_with(l, extinf()));
    assert(l.subrange(0, 8) =~= extinf().push(':'));
    assert(starts_with(l, extinf().push(':')));
    let rest = l.skip(8);
    assert(rest =~= d + seq![','] + t);
    lemma_find_char(rest, ',');
    assert(rest[d.len() as int] == ',');
    assert(has_char(rest, ','));
    let c = find_char(rest, ',')->0;
    if c < d.len() {
        assert(rest[c] == d[c]);
        assert(has_char(d, ','));
    }
    assert(c == d.len());
    assert(rest.take(c) =~= d);
    assert(rest.skip(c + 1) =~= t);
}

/// The path line of a titled entry adds the entry as it was written.
proof fn lemma_titled_path_step(st: M3uState, e: M3uEntry, base: Option<Seq<char>>)
    requires
        plain_entry(e, base),
        titled_entry(e),
        st.title == Some(display_title(e.path@, e.title@)),
        st.duration == (if is_float_literal(e.duration@) {
            Some(e.duration@)
        } else {
            None
        }),
    ensures
        m3u_step(st, e.path@, base) == (M3uState {
            tracks: st.tracks.push(read_back(e, st.tracks.len() as int)),
            duration: None,
            title: None,
        }),
{
    let p = e.path@;
    assert(extinf()[0] == '#');
    assert(!starts_with(p, extinf())) by {
        if starts_with(p, extinf()) {
            assert(p.subrange(0, extinf().len() as int)[0] == p[0]);
        }
    }
    assert(resolved_path(p, base) == p);
}

proof fn lemma_titled_run(
    name: Seq<char>,
    es: Seq<M3uEntry>,
    n: int,
    base: Option<Seq<char>>,
)
    requires
        0 <= n <= es.len(),
        one_line(name),
        forall|k: int|
            0 <= k < es.len() ==> plain_entry(#[trigger] es[k], base) && titled_entry(es[k]),
    ensures
        m3u_run(header_lines(name) + entry_lines(es, n), base) == (M3uState {
            tracks: Seq::new(n as nat, |k: int| read_back(es[k], k)),
            duration: None,
            title: None,
        }),
    decreases n,
{
    let hdr = header_lines(name);
    if n == 0 {
        assert(hdr + entry_lines(es, 0) =~= hdr);
        lemma_header_run(name, base);
        assert(Seq::new(0, |k: int| read_back(es[k], k)) =~= Seq::<RawTrackS>::empty());
    } else {
        lemma_titled_run(name, es, n - 1, base);
        let e = es[n - 1];
        let m = hdr + entry_lines(es, n - 1);
        let l1 = extinf_line(e);
        let whole = hdr + entry_lines(es, n);
        assert(whole =~= m.push(l1).push(e.path@));
        assert(whole.drop_last() =~= m.push(l1));
        assert(m.push(l1).drop_last() =~= m);
        let st0 = m3u_run(m, base);
        lemma_extinf_step(st0, e, base);
        let st1 = m3u_step(st0, l1, base);
        assert(m3u_run(m.push(l1), base) == st1);
        lemma_titled_path_step(st1, e, base);
        assert(st0.tracks.push(read_back(e, n - 1)) =~= Seq::new(
            n as nat,
            |k: int| read_back(es[k], k),
        ));
    }
}

/// Reading back an exported playlist gives each entry as it was written:
/// path, title, position, and duration when that is a number, with no
/// artist. This holds for the entries of `lemma_m3u_round_trip` whose
/// duration text is trimmed and has no comma and whose written title is
/// trimmed, not empty, and has no `" - "`.
pub proof fn lemma_m3u_round_trip_titled(es: Seq<M3uEntry>, name: Seq<char>, base: Option<Seq<char>>)
    requires
        one_line(name),
        forall|k: int|
            0 <= k < es.len() ==> plain_entry(#[trigger] es[k], base) && titled_entry(es[k]),
    ensures
        m3u_tracks(m3u_document(es, name), base) == Seq::new(
            es.len(),
            |k: int| read_back(es[k], k),
        ),
{
    lemma_document_lines(es, name, base);
    lemma_titled_run(name, es, es.len() as int, base);
}

} // verus!
