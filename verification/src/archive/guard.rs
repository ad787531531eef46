//! Paths in an archive: where an entry goes, and whether a path stays inside
//! the directory it is unpacked into. Paths are Unix paths, held as text.
use vstd::prelude::*;

use super::error::ArchiveError;
use crate::text::{Class, chars_of, put, split, split_chars, string_of, views};

verus! {

/// The pieces of an entry's name that name directories and the file: not the
/// empty ones that repeated slashes leave, not `.`.
pub open spec fn named_parts(pieces: Seq<Seq<char>>) -> Seq<Seq<char>>
    decreases pieces.len(),
{
    if pieces.len() == 0 {
        Seq::empty()
    } else {
        let p = pieces.last();
        named_parts(pieces.drop_last()) + if p.len() == 0 || p == seq!['.'] {
            Seq::<Seq<char>>::empty()
        } else {
            seq![p]
        }
    }
}

/// Some piece is `..`.
pub open spec fn climbs(pieces: Seq<Seq<char>>) -> bool {
    exists|i: int| 0 <= i < pieces.len() && pieces[i] == seq!['.', '.']
}

/// A path with one more part, as `PathBuf::push` adds a relative part: with a
/// slash between unless the path is empty or ends in one.
pub open spec fn pushed(base: Seq<char>, part: Seq<char>) -> Seq<char> {
    if base.len() == 0 {
        part
    } else if base.last() == '/' {
        base + part
    } else {
        base + seq!['/'] + part
    }
}

pub open spec fn pushed_all(base: Seq<char>, parts: Seq<Seq<char>>) -> Seq<char>
    decreases parts.len(),
{
    if parts.len() == 0 {
        base
    } else {
        pushed(pushed_all(base, parts.drop_last()), parts.last())
    }
}

/// Where an entry goes under `into`: refused where its name is absolute,
/// climbs out with `..`, or names nothing but `into` itself.
pub open spec fn place_of(into: Seq<char>, entry: Seq<char>) -> Result<Seq<char>, Seq<char>> {
    let pieces = split(entry, Class::Is('/'));
    if (entry.len() > 0 && entry[0] == '/') || climbs(pieces) || named_parts(pieces).len() == 0 {
        Err(entry)
    } else {
        Ok(pushed_all(into, named_parts(pieces)))
    }
}

/// The path an entry of an archive is written to under `into`.
pub fn place(into: &str, entry: &str) -> (r: Result<String, ArchiveError>)
    ensures
        match place_of(into@, entry@) {
            Ok(p) => r matches Ok(s) && s@ == p,
            Err(_) => r matches Err(e) && (e matches ArchiveError::Escaping { entry: x } && x@
                == entry@),
        },
{
    let e = chars_of(entry);
    let refused = ArchiveError::Escaping { entry: crate::text::owned(entry) };
    if e.len() > 0 && e[0] == '/' {
        return Err(refused);
    }
    let pieces = split_chars(e.as_slice(), &Class::Is('/'));
    let mut path: Vec<char> = chars_of(into);
    let mut count: usize = 0;
    let mut i: usize = 0;
    while i < pieces.len()
        invariant
            i <= pieces@.len(),
            e@ == entry@,
            !(e@.len() > 0 && e@[0] == '/'),
            views(pieces@) == split(entry@, Class::Is('/')),
            forall|j: int| 0 <= j < i ==> views(pieces@)[j] != seq!['.', '.'],
            path@ == pushed_all(into@, named_parts(views(pieces@).take(i as int))),
            count == named_parts(views(pieces@).take(i as int)).len(),
            count <= i,
            refused matches ArchiveError::Escaping { entry: x } && x@ == entry@,
        decreases pieces.len() - i,
    {
        let ghost ps = views(pieces@);
        assert(ps.take(i + 1).drop_last() == ps.take(i as int));
        assert(ps.take(i + 1).last() == pieces@[i as int]@);
        let p = &pieces[i];
        if p.len() == 2 && p[0] == '.' && p[1] == '.' {
            assert(p@ =~= seq!['.', '.']);
            assert(climbs(ps));
            return Err(refused);
        }
        assert(p@ != seq!['.', '.']) by {
            if p@ == seq!['.', '.'] {
                assert(p@.len() == 2 && p@[0] == '.' && p@[1] == '.');
            }
        }
        let dot = p.len() == 1 && p[0] == '.';
        assert(dot == (p@ == seq!['.'])) by {
            if p@ == seq!['.'] {
                assert(p@[0] == '.');
            }
            if dot {
                assert(p@ =~= seq!['.']);
            }
        }
        let ghost parts = named_parts(ps.take(i as int));
        let ghost base = path@;
        if p.len() > 0 && !dot {
            let n = path.len();
            if n > 0 && path[n - 1] != '/' {
                path.push('/');
            }
            put(&mut path, p.as_slice());
            assert(path@ == pushed(base, p@));
            assert((parts + seq![p@]).drop_last() == parts);
            assert(named_parts(ps.take(i + 1)) == parts + seq![p@]);
            count = count + 1;
        } else {
            assert(named_parts(ps.take(i + 1)) =~= parts);
        }
        i = i + 1;
    }
    assert(views(pieces@).take(i as int) == views(pieces@));
    if count == 0 {
        return Err(refused);
    }
    Ok(string_of(path.as_slice()))
}

/// The components of a Unix path: `/` for a root, `.` where a relative path
/// opens with it, and then each named part, `..` included.
pub open spec fn comps(p: Seq<char>) -> Seq<Seq<char>> {
    let pieces = split(p, Class::Is('/'));
    let rooted = p.len() > 0 && p[0] == '/';
    (if rooted {
        seq![seq!['/']]
    } else {
        Seq::<Seq<char>>::empty()
    }) + (if !rooted && pieces.len() > 0 && pieces[0] == seq!['.'] {
        seq![seq!['.']]
    } else {
        Seq::<Seq<char>>::empty()
    }) + named_parts(pieces)
}

/// The components of a path.
pub fn components(path: &str) -> (r: Vec<Vec<char>>)
    ensures
        views(r@) == comps(path@),
{
    let p = chars_of(path);
    let pieces = split_chars(p.as_slice(), &Class::Is('/'));
    let mut out: Vec<Vec<char>> = Vec::new();
    let rooted = p.len() > 0 && p[0] == '/';
    if rooted {
        let mut root: Vec<char> = Vec::new();
        root.push('/');
        out.push(root);
    }
    if !rooted && pieces.len() > 0 && pieces[0].len() == 1 && pieces[0][0] == '.' {
        let mut cur: Vec<char> = Vec::new();
        cur.push('.');
        out.push(cur);
    }
    proof {
        let ps = views(pieces@);
        if ps.len() > 0 && ps[0] == seq!['.'] {
            assert(pieces@[0]@.len() == 1 && pieces@[0]@[0] == '.');
        }
        if pieces@.len() > 0 && pieces@[0]@.len() == 1 && pieces@[0]@[0] == '.' {
            assert(ps[0] =~= seq!['.']);
        }
    }
    let ghost head = views(out@);
    assert(head == (if rooted {
        seq![seq!['/']]
    } else {
        Seq::<Seq<char>>::empty()
    }) + (if !rooted && views(pieces@).len() > 0 && views(pieces@)[0] == seq!['.'] {
        seq![seq!['.']]
    } else {
        Seq::<Seq<char>>::empty()
    }));
    let mut i: usize = 0;
    while i < pieces.len()
        invariant
            i <= pieces@.len(),
            views(out@) == head + named_parts(views(pieces@).take(i as int)),
        decreases pieces.len() - i,
    {
        let ghost ps = views(pieces@);
        assert(ps.take(i + 1).drop_last() == ps.take(i as int));
        assert(ps.take(i + 1).last() == pieces@[i as int]@);
        let q = &pieces[i];
        let dot = q.len() == 1 && q[0] == '.';
        assert(dot == (q@ == seq!['.'])) by {
            if q@ == seq!['.'] {
                assert(q@[0] == '.');
            }
            if dot {
                assert(q@ =~= seq!['.']);
            }
        }
        let ghost was = views(out@);
        if q.len() > 0 && !dot {
            let mut copy: Vec<char> = Vec::new();
            put(&mut copy, q.as_slice());
            out.push(copy);
            assert(views(out@) =~= was + seq![q@]);
        } else {
            assert(views(out@) =~= was + Seq::<Seq<char>>::empty());
        }
        i = i + 1;
    }
    assert(views(pieces@).take(i as int) == views(pieces@));
    out
}

/// `base`'s components open `path`'s, as `Path::starts_with` has it.
pub open spec fn contained_of(base: Seq<char>, path: Seq<char>) -> bool {
    let b = comps(base);
    let p = comps(path);
    b.len() <= p.len() && p.take(b.len() as int) == b
}

/// Whether a path lies inside a base, component by component.
pub fn contained(base: &str, path: &str) -> (r: bool)
    ensures
        r == contained_of(base@, path@),
{
    let b = components(base);
    let p = components(path);
    if b.len() > p.len() {
        return false;
    }
    let mut i: usize = 0;
    while i < b.len()
        invariant
            i <= b@.len() <= p@.len(),
            views(b@) == comps(base@),
            views(p@) == comps(path@),
            forall|j: int| 0 <= j < i ==> views(p@)[j] == views(b@)[j],
        decreases b.len() - i,
    {
        let x = string_of(b[i].as_slice());
        let y = string_of(p[i].as_slice());
        if !crate::text::same(x.as_str(), y.as_str()) {
            assert(views(p@).take(b@.len() as int)[i as int] != views(b@)[i as int]);
            return false;
        }
        i = i + 1;
    }
    assert(views(p@).take(b@.len() as int) =~= views(b@));
    true
}

} // verus!

verus! {

/// A part that a path can be pushed with: some characters, no slash, not `.`.
pub open spec fn normal(part: Seq<char>) -> bool {
    &&& part.len() > 0
    &&& part != seq!['.']
    &&& forall|i: int| 0 <= i < part.len() ==> part[i] != '/'
}

proof fn lemma_split_after(a: Seq<char>, b: Seq<char>)
    requires
        forall|i: int| 0 <= i < b.len() ==> b[i] != '/',
    ensures
        split(a.push('/') + b, Class::Is('/')) == split(a, Class::Is('/')) + seq![b],
    decreases b.len(),
{
    let k = Class::Is('/');
    if b.len() == 0 {
        assert(a.push('/') + b == a.push('/'));
        assert(a.push('/').drop_last() == a);
        assert(a.push('/').last() == '/');
        assert(b =~= Seq::<char>::empty());
        assert(split(a, k) + seq![b] =~= split(a, k).push(Seq::<char>::empty()));
    } else {
        let s = a.push('/') + b;
        assert(b[b.len() - 1] != '/');
        assert forall|i: int| 0 <= i < b.drop_last().len() implies b.drop_last()[i] != '/' by {
            assert(b.drop_last()[i] == b[i]);
        }
        lemma_split_after(a, b.drop_last());
        assert(s.drop_last() == a.push('/') + b.drop_last());
        assert(s.last() == b.last());
        assert(b.drop_last().push(b.last()) == b);
        let p = split(a, k) + seq![b.drop_last()];
        assert(p.update(p.len() - 1, p.last().push(s.last())) =~= split(a, k) + seq![b]);
    }
}

proof fn lemma_split_plain(b: Seq<char>)
    requires
        forall|i: int| 0 <= i < b.len() ==> b[i] != '/',
    ensures
        split(b, Class::Is('/')) == seq![b],
    decreases b.len(),
{
    if b.len() > 0 {
        lemma_split_plain(b.drop_last());
        assert(b.drop_last().push(b.last()) == b);
        assert(seq![b.drop_last()].update(0, b.drop_last().push(b.last())) =~= seq![b]);
    } else {
        assert(b == Seq::<char>::empty());
    }
}

proof fn lemma_pieces_plain(s: Seq<char>)
    ensures
        forall|j: int, i: int|
            0 <= j < split(s, Class::Is('/')).len() && 0 <= i < split(s, Class::Is('/'))[j].len()
                ==> #[trigger] split(s, Class::Is('/'))[j][i] != '/',
    decreases s.len(),
{
    if s.len() > 0 {
        lemma_pieces_plain(s.drop_last());
        crate::text::lemma_split_len(s.drop_last(), Class::Is('/'));
    }
}

proof fn lemma_named_normal(pieces: Seq<Seq<char>>)
    requires
        forall|j: int, i: int| 0 <= j < pieces.len() && 0 <= i < pieces[j].len() ==> #[trigger] pieces[j][i] != '/',
    ensures
        forall|j: int| 0 <= j < named_parts(pieces).len() ==> normal(#[trigger] named_parts(pieces)[j]),
    decreases pieces.len(),
{
    if pieces.len() > 0 {
        let d = pieces.drop_last();
        assert forall|j: int, i: int| 0 <= j < d.len() && 0 <= i < d[j].len() implies #[trigger] d[j][i] != '/' by {
            assert(d[j] == pieces[j]);
        }
        lemma_named_normal(d);
        let n = named_parts(pieces);
        let a = named_parts(d);
        assert forall|j: int| 0 <= j < n.len() implies normal(#[trigger] n[j]) by {
            if j < a.len() {
                assert(n[j] == a[j]);
            } else {
                assert(n[j] == pieces.last());
                assert(pieces.last() == pieces[pieces.len() - 1]);
            }
        }
    }
}

proof fn lemma_comps_push(base: Seq<char>, part: Seq<char>)
    requires
        normal(part),
    ensures
        comps(pushed(base, part)) == comps(base) + seq![part],
{
    let k = Class::Is('/');
    lemma_split_plain(part);
    if base.len() == 0 {
        assert(split(base, k) == seq![Seq::<char>::empty()]);
        let e = seq![Seq::<char>::empty()];
        assert(e.drop_last() =~= Seq::<Seq<char>>::empty());
        assert(e.last().len() == 0);
        assert(named_parts(e.drop_last()) =~= Seq::<Seq<char>>::empty());
        assert(named_parts(e) =~= Seq::<Seq<char>>::empty());
        let q = seq![part];
        assert(q.drop_last() =~= Seq::<Seq<char>>::empty());
        assert(q.last() == part);
        assert(named_parts(q.drop_last()) =~= Seq::<Seq<char>>::empty());
        assert(named_parts(q) =~= seq![part]);
        assert(comps(base) =~= Seq::<Seq<char>>::empty());
        if part[0] == '/' {
            assert(false);
        }
        assert(comps(pushed(base, part)) =~= seq![part]);
    } else if base.last() == '/' {
        let b = base.drop_last();
        assert(b.push('/') == base);
        lemma_split_after(b, part);
        lemma_split_after(b, Seq::<char>::empty());
        assert(base + Seq::<char>::empty() == base);
        crate::text::lemma_split_len(b, k);
        let sb = split(b, k);
        assert((sb + seq![part]).drop_last() == sb);
        assert((sb + seq![Seq::<char>::empty()]).drop_last() == sb);
        assert((sb + seq![part])[0] == sb[0]);
        assert((sb + seq![Seq::<char>::empty()])[0] == sb[0]);
        assert((base + part)[0] == base[0]);
        assert(comps(base + part) =~= comps(base) + seq![part]);
    } else {
        lemma_split_after(base, part);
        crate::text::lemma_split_len(base, k);
        let sb = split(base, k);
        assert((sb + seq![part]).drop_last() == sb);
        assert((sb + seq![part])[0] == sb[0]);
        assert((base.push('/') + part)[0] == base[0]);
        assert(base + seq!['/'] + part == base.push('/') + part);
        assert(comps(base.push('/') + part) =~= comps(base) + seq![part]);
    }
}

proof fn lemma_comps_push_all(base: Seq<char>, parts: Seq<Seq<char>>)
    requires
        forall|j: int| 0 <= j < parts.len() ==> normal(#[trigger] parts[j]),
    ensures
        comps(pushed_all(base, parts)) == comps(base) + parts,
    decreases parts.len(),
{
    if parts.len() == 0 {
        assert(comps(base) + parts =~= comps(base));
    } else {
        lemma_comps_push_all(base, parts.drop_last());
        assert(normal(parts[parts.len() - 1]));
        lemma_comps_push(pushed_all(base, parts.drop_last()), parts.last());
        assert(comps(base) + parts.drop_last() + seq![parts.last()] =~= comps(base) + parts);
    }
}

/// Every entry that `place` lets through lies inside the directory it is
/// unpacked into, and one component deeper at least.
pub proof fn placed_inside(into: Seq<char>, entry: Seq<char>)
    ensures
        place_of(into, entry) matches Ok(p) ==> contained_of(into, p) && comps(p).len() > comps(
            into,
        ).len(),
{
    let pieces = split(entry, Class::Is('/'));
    match place_of(into, entry) {
        Ok(p) => {
            lemma_pieces_plain(entry);
            lemma_named_normal(pieces);
            let parts = named_parts(pieces);
            lemma_comps_push_all(into, parts);
            assert((comps(into) + parts).take(comps(into).len() as int) =~= comps(into));
        },
        Err(_) => {},
    }
}

} // verus!
