//! What a block of a stage is written with: its id, kind and text, then each
//! optional field that it has.
use vstd::prelude::*;

use super::types::{Block, kind_label, opt_str, opt_view};

verus! {

/// The optional fields of a block by name, in the order a stage file writes them.
pub open spec fn extras_of(b: Block) -> Seq<(Seq<char>, Option<Seq<char>>)> {
    seq![
        ("lang"@, opt_view(b.lang)),
        ("asset"@, opt_view(b.asset)),
        ("license"@, opt_view(b.license)),
        ("attribution"@, opt_view(b.attribution)),
        ("source"@, opt_view(b.source)),
    ]
}

/// The fields that have a value, in order.
pub open spec fn present(es: Seq<(Seq<char>, Option<Seq<char>>)>) -> Seq<(Seq<char>, Seq<char>)>
    decreases es.len(),
{
    if es.len() == 0 {
        Seq::empty()
    } else {
        let rest = present(es.drop_last());
        match es.last().1 {
            Some(v) => rest.push((es.last().0, v)),
            None => rest,
        }
    }
}

/// The entries of a block as a stage file writes them.
pub open spec fn written_of(b: Block) -> Seq<(Seq<char>, Seq<char>)> {
    seq![("id"@, b.id@), ("kind"@, kind_label(b.kind)), ("text"@, b.text@)] + present(extras_of(b))
}

/// The entries a block is written with: its id, kind and text, then each
/// optional field that it has, by name.
pub fn written<'a>(block: &'a Block) -> (r: Vec<(&'static str, &'a str)>)
    ensures
        r@.map_values(|e: (&str, &str)| (e.0@, e.1@)) == written_of(*block),
{
    let mut r: Vec<(&'static str, &'a str)> = Vec::new();
    r.push(("id", block.id.as_str()));
    r.push(("kind", block.kind.label()));
    r.push(("text", block.text.as_str()));
    let extras = block.extras();
    let ghost es = extras_of(*block);
    assert(extras@.map_values(|e: (&str, Option<&str>)| (e.0@, opt_str(e.1))) == es);
    let ghost head = r@.map_values(|e: (&str, &str)| (e.0@, e.1@));
    let mut i: usize = 0;
    while i < 5
        invariant
            i <= 5,
            extras@.len() == 5,
            extras@.map_values(|e: (&str, Option<&str>)| (e.0@, opt_str(e.1))) == es,
            r@.map_values(|e: (&str, &str)| (e.0@, e.1@)) == head + present(es.take(i as int)),
        decreases 5 - i,
    {
        let ghost was = r@.map_values(|e: (&str, &str)| (e.0@, e.1@));
        assert(es[i as int] == (extras@[i as int].0@, opt_str(extras@[i as int].1)));
        assert(es.take(i + 1).drop_last() =~= es.take(i as int));
        match extras[i].1 {
            Some(value) => {
                r.push((extras[i].0, value));
                assert(r@.map_values(|e: (&str, &str)| (e.0@, e.1@)) =~= was.push((extras@[i as int].0@, value@)));
            },
            None => {},
        }
        i = i + 1;
    }
    assert(es.take(5) =~= es);
    r
}

} // verus!
