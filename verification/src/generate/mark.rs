//! The marks a program's file gets once it is generated: the date it was
//! made, and its stages marked as generated.
use vstd::prelude::*;

use crate::text::{
    Class, chars_of, lemma_split_front, lemma_split_len, lemma_split_pieces, lemma_split_single,
    lemma_lead, lemma_lead_run, lemma_tail, lemma_tail_run, lead, opens_with, put, put_str, split, split_chars, starts_with, string_of,
    tail, trim, trim_chars, trim_end_by, trim_start, trim_start_chars, views,
};

verus! {

/// A line of a file, by its characters and whether a line break ends it.
pub open spec fn whole(seg: Seq<char>, nl: bool) -> Seq<char> {
    if nl {
        seg.push('\n')
    } else {
        seg
    }
}

/// A line without the carriage returns at its end.
pub open spec fn body_of(seg: Seq<char>) -> Seq<char> {
    trim_end_by(seg, Class::Is('\r'))
}

/// What comes after a line's body: its carriage returns and its line break.
pub open spec fn end_of(seg: Seq<char>, nl: bool) -> Seq<char> {
    whole(seg.skip(body_of(seg).len() as int), nl)
}

/// A line that gives the date of generation, made to give `today`.
pub open spec fn stamp_line(seg: Seq<char>, nl: bool, today: Seq<char>) -> Seq<char> {
    if opens_with(body_of(seg), "generated_at:"@) {
        "generated_at:"@ + seq![' '] + today + end_of(seg, nl)
    } else {
        whole(seg, nl)
    }
}

/// Each line of the file made over by `f`, the last one without a line break.
pub open spec fn stamped_segs(segs: Seq<Seq<char>>, today: Seq<char>) -> Seq<char>
    decreases segs.len(),
{
    if segs.len() == 0 {
        Seq::<char>::empty()
    } else if segs.len() == 1 {
        stamp_line(segs[0], false, today)
    } else {
        stamp_line(segs[0], true, today) + stamped_segs(segs.drop_first(), today)
    }
}

/// The file with its date of generation set to `today`, the rest as it was.
pub open spec fn stamped_of(roadmap: Seq<char>, today: Seq<char>) -> Seq<char> {
    stamped_segs(split(roadmap, Class::Is('\n')), today)
}

proof fn lemma_segs_step<A>(segs: Seq<A>, i: int)
    requires
        0 <= i < segs.len(),
    ensures
        segs.skip(i).drop_first() == segs.skip(i + 1),
        segs.skip(i)[0] == segs[i],
{
    assert(segs.skip(i).drop_first() =~= segs.skip(i + 1));
}

fn line_parts(seg: &Vec<char>) -> (r: (Vec<char>, Vec<char>))
    ensures
        r.0@ == body_of(seg@),
        r.1@ == seg@.skip(body_of(seg@).len() as int),
{
    let n = seg.len() - crate::text::tail_len(seg.as_slice(), &Class::Is('\r'));
    let body = crate::text::slice(seg.as_slice(), 0, n);
    let rest = crate::text::slice(seg.as_slice(), n, seg.len());
    assert(rest@ =~= seg@.skip(n as int));
    (body, rest)
}

pub fn stamped(roadmap: &str, today: &str) -> (r: String)
    ensures
        r@ == stamped_of(roadmap@, today@),
{
    let s = chars_of(roadmap);
    let segs = split_chars(s.as_slice(), &Class::Is('\n'));
    let ghost all = views(segs@);
    let mut out: Vec<char> = Vec::new();
    let mut i: usize = 0;
    assert(all.skip(0) == all);
    while i < segs.len()
        invariant
            i <= segs@.len(),
            all == views(segs@),
            all == split(roadmap@, Class::Is('\n')),
            out@ + stamped_segs(all.skip(i as int), today@) == stamped_of(roadmap@, today@),
        decreases segs.len() - i,
    {
        proof {
            lemma_segs_step(all, i as int);
        }
        let seg = &segs[i];
        let nl = i + 1 < segs.len();
        let (body, rest) = line_parts(seg);
        let ghost before = out@;
        if starts_with(body.as_slice(), "generated_at:") {
            put_str(&mut out, "generated_at:");
            out.push(' ');
            put_str(&mut out, today);
            put(&mut out, rest.as_slice());
            if nl {
                out.push('\n');
            }
        } else {
            put(&mut out, seg.as_slice());
            if nl {
                out.push('\n');
            }
        }
        assert(out@ =~= before + stamp_line(seg@, nl, today@));
        proof {
            if nl {
                assert(all.skip(i as int).len() > 1);
            } else {
                assert(all.skip(i as int).len() == 1);
                assert(all.skip(i + 1).len() == 0);
            }
        }
        i = i + 1;
    }
    string_of(out.as_slice())
}

/// `s` without the `- ` marks that open it.
pub open spec fn undashed(s: Seq<char>) -> Seq<char>
    decreases s.len(),
{
    if s.len() >= 2 && s[0] == '-' && s[1] == ' ' {
        undashed(s.skip(2))
    } else {
        s
    }
}

/// A stage line that says it is not generated, made to say it is: its indent
/// and its list mark kept.
pub open spec fn mark_line(seg: Seq<char>, nl: bool) -> Seq<char> {
    let body = body_of(seg);
    let ts = trim_start(body);
    if trim(undashed(ts)) == "generated: false"@ {
        body.take(body.len() - ts.len()) + (if opens_with(ts, seq!['-', ' ']) {
            seq!['-', ' ']
        } else {
            Seq::<char>::empty()
        }) + "generated: true"@ + end_of(seg, nl)
    } else {
        whole(seg, nl)
    }
}

pub open spec fn marked_segs(segs: Seq<Seq<char>>) -> Seq<char>
    decreases segs.len(),
{
    if segs.len() == 0 {
        Seq::<char>::empty()
    } else if segs.len() == 1 {
        mark_line(segs[0], false)
    } else {
        mark_line(segs[0], true) + marked_segs(segs.drop_first())
    }
}

/// The file with every stage that said it was not generated saying it is.
pub open spec fn generated_of(roadmap: Seq<char>) -> Seq<char> {
    marked_segs(split(roadmap, Class::Is('\n')))
}

fn undash(s: &Vec<char>) -> (r: Vec<char>)
    ensures
        r@ == undashed(s@),
{
    let mut k: usize = 0;
    assert(s@.skip(0) == s@);
    while s.len() - k >= 2 && s[k] == '-' && s[k + 1] == ' '
        invariant
            k <= s@.len(),
            undashed(s@) == undashed(s@.skip(k as int)),
        decreases s.len() - k,
    {
        assert(s@.skip(k as int).skip(2) =~= s@.skip(k + 2));
        assert(s@.skip(k as int)[0] == s@[k as int]);
        assert(s@.skip(k as int)[1] == s@[k + 1]);
        k = k + 2;
    }
    let r = crate::text::slice(s.as_slice(), k, s.len());
    proof {
        let t = s@.skip(k as int);
        if t.len() >= 2 {
            assert(t[0] == s@[k as int]);
            assert(t[1] == s@[k + 1]);
        }
        assert(r@ =~= t);
    }
    r
}

pub fn generated(roadmap: &str) -> (r: String)
    ensures
        r@ == generated_of(roadmap@),
{
    let s = chars_of(roadmap);
    let segs = split_chars(s.as_slice(), &Class::Is('\n'));
    let ghost all = views(segs@);
    let mut out: Vec<char> = Vec::new();
    let mut i: usize = 0;
    assert(all.skip(0) == all);
    while i < segs.len()
        invariant
            i <= segs@.len(),
            all == views(segs@),
            all == split(roadmap@, Class::Is('\n')),
            out@ + marked_segs(all.skip(i as int)) == generated_of(roadmap@),
        decreases segs.len() - i,
    {
        proof {
            lemma_segs_step(all, i as int);
        }
        let seg = &segs[i];
        let nl = i + 1 < segs.len();
        let (body, rest) = line_parts(seg);
        let ts = trim_start_chars(body.as_slice(), &Class::Space);
        let u = undash(&ts);
        let t = trim_chars(u.as_slice(), &Class::Space);
        let ts_text = string_of(t.as_slice());
        let ghost before = out@;
        if crate::text::same(ts_text.as_str(), "generated: false") {
            proof {
                crate::text::lemma_lead_le(body@, Class::Space);
            }
            let indent = crate::text::slice(body.as_slice(), 0, body.len() - ts.len());
            put(&mut out, indent.as_slice());
            let dashed = ts.len() >= 2 && ts[0] == '-' && ts[1] == ' ';
            if dashed {
                out.push('-');
                out.push(' ');
            }
            proof {
                if ts@.len() >= 2 {
                    assert(dashed == (ts@.take(2) =~= seq!['-', ' ']));
                }
            }
            put_str(&mut out, "generated: true");
            put(&mut out, rest.as_slice());
            if nl {
                out.push('\n');
            }
        } else {
            put(&mut out, seg.as_slice());
            if nl {
                out.push('\n');
            }
        }
        assert(out@ =~= before + mark_line(seg@, nl));
        proof {
            if nl {
                assert(all.skip(i as int).len() > 1);
            } else {
                assert(all.skip(i as int).len() == 1);
                assert(all.skip(i + 1).len() == 0);
            }
        }
        i = i + 1;
    }
    string_of(out.as_slice())
}

/// The lines joined by line breaks, the last one without.
pub open spec fn rejoined(ls: Seq<Seq<char>>) -> Seq<char>
    decreases ls.len(),
{
    if ls.len() == 0 {
        Seq::empty()
    } else if ls.len() == 1 {
        ls[0]
    } else {
        ls[0].push('\n') + rejoined(ls.drop_first())
    }
}

proof fn lemma_split_rejoined(ls: Seq<Seq<char>>)
    requires
        ls.len() >= 1,
        forall|i: int| 0 <= i < ls.len() ==> !(#[trigger] ls[i]).contains('\n'),
    ensures
        split(rejoined(ls), Class::Is('\n')) == ls,
    decreases ls.len(),
{
    if ls.len() == 1 {
        lemma_split_single(ls[0], '\n');
        assert(seq![ls[0]] =~= ls);
    } else {
        let rest = ls.drop_first();
        assert forall|i: int| 0 <= i < rest.len() implies !(#[trigger] rest[i]).contains('\n') by {
            assert(rest[i] == ls[i + 1]);
        }
        lemma_split_rejoined(rest);
        assert(!ls[0].contains('\n'));
        lemma_split_front(ls[0], '\n', rejoined(rest));
        assert(seq![ls[0]] + rest =~= ls);
    }
}

/// A line whose body has no carriage return at its end, followed by carriage
/// returns only, has that body.
proof fn lemma_body(p: Seq<char>, e: Seq<char>)
    requires
        p.len() > 0,
        p.last() != '\r',
        forall|j: int| 0 <= j < e.len() ==> #[trigger] e[j] == '\r',
    ensures
        body_of(p + e) == p,
{
    let l = p + e;
    assert forall|j: int| l.len() - e.len() <= j < l.len() implies Class::Is('\r').has(#[trigger] l[j]) by {
        assert(l[j] == e[j - p.len()]);
    }
    assert(l[l.len() - 1 - e.len()] == p.last());
    lemma_tail(l, Class::Is('\r'), e.len() as int);
    assert(l.take(l.len() - e.len()) =~= p);
}

/// The end of a line after its body is carriage returns.
proof fn lemma_end_returns(seg: Seq<char>)
    ensures
        forall|j: int| 0 <= j < end_of(seg, false).len() ==> #[trigger] end_of(seg, false)[j] == '\r',
        body_of(seg).len() + end_of(seg, false).len() == seg.len(),
{
    lemma_tail_run(seg, Class::Is('\r'));
    let e = end_of(seg, false);
    assert forall|j: int| 0 <= j < e.len() implies #[trigger] e[j] == '\r' by {
        assert(e[j] == seg[body_of(seg).len() + j]);
        assert(Class::Is('\r').has(seg[body_of(seg).len() + j]));
    }
}

proof fn lemma_stamp_line(seg: Seq<char>, today: Seq<char>)
    requires
        !seg.contains('\n'),
        !today.contains('\n'),
        !today.contains('\r'),
    ensures
        stamp_line(seg, true, today) == stamp_line(seg, false, today).push('\n'),
        !stamp_line(seg, false, today).contains('\n'),
        stamp_line(stamp_line(seg, false, today), false, today) == stamp_line(seg, false, today),
{
    reveal_strlit("generated_at:");
    let l = stamp_line(seg, false, today);
    if opens_with(body_of(seg), "generated_at:"@) {
        let p = "generated_at:"@ + seq![' '] + today;
        let e = end_of(seg, false);
        lemma_end_returns(seg);
        assert(l =~= p + e);
        assert(stamp_line(seg, true, today) =~= l.push('\n'));
        if today.len() > 0 {
            assert(p.last() == today.last());
            assert(today.contains(today.last()));
        }
        lemma_body(p, e);
        assert(p.take(13) =~= "generated_at:"@);
        assert(body_of(l).take(13) =~= "generated_at:"@);
        assert(l.skip(p.len() as int) =~= e);
        assert(stamp_line(l, false, today) =~= l);
        if l.contains('\n') {
            let j = choose|j: int| 0 <= j < l.len() && l[j] == '\n';
            if j >= p.len() {
                assert(e[j - p.len()] == '\r');
            } else if j >= 14 {
                assert(today[j - 14] == '\n');
                assert(today.contains('\n'));
            } else {
                assert(p[j] == l[j]);
            }
        }
    }
}

proof fn lemma_stamped_rejoined(segs: Seq<Seq<char>>, today: Seq<char>)
    requires
        forall|i: int| 0 <= i < segs.len() ==> !(#[trigger] segs[i]).contains('\n'),
        !today.contains('\n'),
        !today.contains('\r'),
    ensures
        stamped_segs(segs, today) == rejoined(segs.map_values(|s: Seq<char>| stamp_line(s, false, today))),
    decreases segs.len(),
{
    let m = segs.map_values(|s: Seq<char>| stamp_line(s, false, today));
    if segs.len() >= 2 {
        let rest = segs.drop_first();
        assert forall|i: int| 0 <= i < rest.len() implies !(#[trigger] rest[i]).contains('\n') by {
            assert(rest[i] == segs[i + 1]);
        }
        lemma_stamped_rejoined(rest, today);
        lemma_stamp_line(segs[0], today);
        assert(m.drop_first() =~= rest.map_values(|s: Seq<char>| stamp_line(s, false, today)));
    }
}

/// Stamping a file with a date twice is stamping it once: the second stamp
/// finds each line as the first one left it.
pub proof fn stamping_twice_is_stamping_once(roadmap: Seq<char>, today: Seq<char>)
    requires
        !today.contains('\n'),
        !today.contains('\r'),
    ensures
        stamped_of(stamped_of(roadmap, today), today) == stamped_of(roadmap, today),
{
    let segs = split(roadmap, Class::Is('\n'));
    lemma_split_pieces(roadmap, '\n');
    lemma_split_len(roadmap, Class::Is('\n'));
    lemma_stamped_rejoined(segs, today);
    let m = segs.map_values(|s: Seq<char>| stamp_line(s, false, today));
    assert forall|i: int| 0 <= i < m.len() implies !(#[trigger] m[i]).contains('\n') by {
        lemma_stamp_line(segs[i], today);
    }
    lemma_split_rejoined(m);
    lemma_stamped_rejoined(m, today);
    assert(m.map_values(|s: Seq<char>| stamp_line(s, false, today)) =~= m) by {
        assert forall|i: int| 0 <= i < m.len() implies stamp_line(m[i], false, today) == m[i] by {
            lemma_stamp_line(segs[i], today);
        }
    }
}

proof fn lemma_mark_line(seg: Seq<char>)
    requires
        !seg.contains('\n'),
    ensures
        mark_line(seg, true) == mark_line(seg, false).push('\n'),
        !mark_line(seg, false).contains('\n'),
        mark_line(mark_line(seg, false), false) == mark_line(seg, false),
{
    reveal_strlit("generated: false");
    reveal_strlit("generated: true");
    let body = body_of(seg);
    let ts = trim_start(body);
    let l = mark_line(seg, false);
    lemma_end_returns(seg);
    if trim(undashed(ts)) == "generated: false"@ {
        lemma_lead_run(body, Class::Space);
        let n = lead(body, Class::Space);
        let i = body.take(body.len() - ts.len());
        assert(i =~= body.take(n as int));
        let d = if opens_with(ts, seq!['-', ' ']) {
            seq!['-', ' ']
        } else {
            Seq::<char>::empty()
        };
        let g = "generated: true"@;
        let e = end_of(seg, false);
        let p = i + d + g;
        assert(l =~= p + e);
        assert(mark_line(seg, true) =~= l.push('\n'));
        assert(p.last() == 'e');
        lemma_body(p, e);
        assert forall|j: int| 0 <= j < i.len() implies Class::Space.has(#[trigger] p[j]) by {
            assert(p[j] == body[j]);
        }
        assert(!Class::Space.has(p[i.len() as int]));
        lemma_lead(p, Class::Space, i.len() as int);
        let ts2 = trim_start(p);
        assert(ts2 =~= d + g);
        assert(undashed(g) == g) by {
            assert(g[0] == 'g');
        }
        if d.len() > 0 {
            assert((d + g).skip(2) =~= g);
        }
        assert(undashed(ts2) == g);
        assert(lead(g, Class::Space) == 0) by {
            assert(g[0] == 'g');
        }
        assert(g.skip(0) =~= g);
        assert(tail(g, Class::Space) == 0) by {
            assert(g.last() == 'e');
        }
        assert(g.take(g.len() - 0) =~= g);
        assert(trim(g) == g);
        assert(g.len() != "generated: false"@.len());
        assert(mark_line(l, false) =~= l);
        if l.contains('\n') {
            let j = choose|j: int| 0 <= j < l.len() && l[j] == '\n';
            if j < i.len() {
                assert(l[j] == p[j]);
                assert(p[j] == i[j]);
                assert(i[j] == body[j]);
                lemma_tail_run(seg, Class::Is('\r'));
                assert(body[j] == seg[j]);
                assert(seg.contains('\n'));
            } else if j >= p.len() {
                assert(l[j] == e[j - p.len()]);
            } else if j < i.len() + d.len() {
                assert(l[j] == d[j - i.len()]);
            } else {
                assert(l[j] == g[j - i.len() - d.len()]);
            }
        }
    } else {
        assert(mark_line(seg, true) =~= l.push('\n'));
    }
}

proof fn lemma_marked_rejoined(segs: Seq<Seq<char>>)
    requires
        forall|i: int| 0 <= i < segs.len() ==> !(#[trigger] segs[i]).contains('\n'),
    ensures
        marked_segs(segs) == rejoined(segs.map_values(|s: Seq<char>| mark_line(s, false))),
    decreases segs.len(),
{
    let m = segs.map_values(|s: Seq<char>| mark_line(s, false));
    if segs.len() >= 2 {
        let rest = segs.drop_first();
        assert forall|i: int| 0 <= i < rest.len() implies !(#[trigger] rest[i]).contains('\n') by {
            assert(rest[i] == segs[i + 1]);
        }
        lemma_marked_rejoined(rest);
        lemma_mark_line(segs[0]);
        assert(m.drop_first() =~= rest.map_values(|s: Seq<char>| mark_line(s, false)));
    }
}

/// Marking the stages of a file as generated twice is marking them once: no
/// line that the first pass leaves says a stage is not generated.
pub proof fn marking_twice_is_marking_once(roadmap: Seq<char>)
    ensures
        generated_of(generated_of(roadmap)) == generated_of(roadmap),
{
    let segs = split(roadmap, Class::Is('\n'));
    lemma_split_pieces(roadmap, '\n');
    lemma_split_len(roadmap, Class::Is('\n'));
    lemma_marked_rejoined(segs);
    let m = segs.map_values(|s: Seq<char>| mark_line(s, false));
    assert forall|i: int| 0 <= i < m.len() implies !(#[trigger] m[i]).contains('\n') by {
        lemma_mark_line(segs[i]);
    }
    lemma_split_rejoined(m);
    lemma_marked_rejoined(m);
    assert(m.map_values(|s: Seq<char>| mark_line(s, false)) =~= m) by {
        assert forall|i: int| 0 <= i < m.len() implies mark_line(m[i], false) == m[i] by {
            lemma_mark_line(segs[i]);
        }
    }
}

} // verus!
