//! The program as Markdown: escapes, documents built line by line, prose,
//! anchors, and the parts of a topic.
pub mod anchors;
pub mod ask;
pub mod blocks;
pub mod error;
pub mod escape;
pub mod head;
pub mod index;
pub mod lines;
pub mod note;
pub mod parts;
pub mod prose;
pub mod section;
pub mod stage;
pub mod words;

pub use error::ExportError;

use vstd::prelude::*;

use self::index::{child_at, child_of, find_child, has_stage};
use self::words::{Lexicon, Words};
use crate::program::Tree;
use crate::stage::Stage;
use crate::text::{decimal, decimal_of, put_str, same, string_of};

verus! {

/// An export: its pages, and the assets it copies.
#[derive(Debug, Clone, PartialEq, Eq)]
pub struct Export {
    pub pages: Vec<Page>,
    pub assets: Vec<Asset>,
}

/// A page of an export: where it goes, and its text.
#[derive(Debug, Clone, PartialEq, Eq)]
pub struct Page {
    pub path: String,
    pub text: String,
}

/// An asset of an export: where it is copied from, and where to.
#[derive(Debug, Clone, PartialEq, Eq)]
pub struct Asset {
    pub from: String,
    pub to: String,
}

/// A link to a place in the book: its title, and the anchor it leads to.
#[derive(Debug, Clone, PartialEq, Eq)]
pub struct Link {
    pub title: String,
    pub anchor: String,
}

/// A chapter of the book: its title and anchor, and the topics placed in it.
#[derive(Debug, Clone, PartialEq, Eq)]
pub struct Chapter {
    pub title: String,
    pub anchor: String,
    pub topics: Vec<Link>,
}

/// A number of at least two digits, zero-padded.
pub open spec fn two_digits(n: nat) -> Seq<char> {
    if n < 10 {
        seq!['0'] + decimal(n)
    } else {
        decimal(n)
    }
}

fn numbered_name(place: usize, name: &str, tail: &str) -> (r: String)
    requires
        place < usize::MAX,
    ensures
        r@ == two_digits((place + 1) as nat) + seq!['-'] + name@ + tail@,
{
    let n = place + 1;
    let mut out: Vec<char> = Vec::new();
    if n < 10 {
        out.push('0');
    }
    let d = decimal_of(n as u64);
    put_str(&mut out, d.as_str());
    out.push('-');
    put_str(&mut out, name);
    put_str(&mut out, tail);
    string_of(out.as_slice())
}

/// The file of a stage's page: its place from 1 in two digits, and its id.
pub fn file(place: usize, id: &str) -> (r: String)
    requires
        place < usize::MAX,
    ensures
        r@ == two_digits((place + 1) as nat) + seq!['-'] + id@ + ".md"@,
{
    numbered_name(place, id, ".md")
}

/// The folder of a child program: its place from 1 in two digits, and its slug.
pub fn folder(place: usize, slug: &str) -> (r: String)
    requires
        place < usize::MAX,
    ensures
        r@ == two_digits((place + 1) as nat) + seq!['-'] + slug@,
{
    let r = numbered_name(place, slug, "");
    proof {
        reveal_strlit("");
    }
    assert(r@ =~= two_digits((place + 1) as nat) + seq!['-'] + slug@);
    r
}

/// A page or an asset as plain text: where it goes, and what it is.
pub open spec fn page_view(p: Page) -> (Seq<char>, Seq<char>) {
    (p.path@, p.text@)
}

pub open spec fn asset_view(a: Asset) -> (Seq<char>, Seq<char>) {
    (a.from@, a.to@)
}

/// The pages of an export, each as its path and its text.
pub open spec fn pages_of(e: Export) -> Seq<(Seq<char>, Seq<char>)> {
    e.pages@.map_values(|p: Page| page_view(p))
}

/// The assets of an export, each as where it is copied from and where to.
pub open spec fn assets_of(e: Export) -> Seq<(Seq<char>, Seq<char>)> {
    e.assets@.map_values(|a: Asset| asset_view(a))
}

/// The stage of an id: the first one the tree has.
pub open spec fn stage_of(stages: Seq<(String, Stage)>, id: Seq<char>) -> Option<Stage>
    decreases stages.len(),
{
    if stages.len() == 0 {
        None
    } else if stages[0].0@ == id {
        Some(stages[0].1)
    } else {
        stage_of(stages.drop_first(), id)
    }
}

/// The pages of the first `k` stages of the plan that the tree has.
#[verifier::opaque]
pub open spec fn stage_pages(t: Tree, to: Seq<char>, w: Words, k: int) -> Seq<
    (Seq<char>, Seq<char>),
>
    decreases k,
{
    if k <= 0 {
        Seq::empty()
    } else {
        let row = t.program.map.stages@[k - 1];
        stage_pages(t, to, w, k - 1) + match stage_of(t.stages@, row.id@) {
            Some(s) => seq![
                (
                    to + two_digits(k as nat) + seq!['-'] + row.id@ + ".md"@,
                    stage::page_of(s, t.program.title@, w),
                ),
            ],
            None => Seq::empty(),
        }
    }
}

/// The pages and assets of a program and of all the programs under it, its
/// files read from under `from` and written under `to`.
#[verifier::opaque]
pub open spec fn walked(
    t: Tree,
    from: Seq<char>,
    to: Seq<char>,
    parent: Option<Seq<char>>,
    lex: Lexicon,
) -> (Seq<(Seq<char>, Seq<char>)>, Seq<(Seq<char>, Seq<char>)>)
    decreases t, t.program.map.children@.len() + 1,
{
    let w = lex.words_for(t.program.generation.locale@);
    let own = seq![(to + "index.md"@, index::page_of(t, parent, w))] + stage_pages(
        t,
        to,
        w,
        t.program.map.stages@.len() as int,
    );
    let assets = t.assets@.map_values(|a: String| (from + a@, to + a@));
    let kids = kids_walked(t, from, to, lex, t.program.map.children@.len() as int);
    (own + kids.0, assets + kids.1)
}

/// The pages and assets of the first `k` child programs of the plan that the
/// tree has.
#[verifier::opaque]
pub open spec fn kids_walked(t: Tree, from: Seq<char>, to: Seq<char>, lex: Lexicon, k: int) -> (
    Seq<(Seq<char>, Seq<char>)>,
    Seq<(Seq<char>, Seq<char>)>,
)
    decreases t, k,
{
    if k <= 0 {
        (Seq::empty(), Seq::empty())
    } else {
        let before = kids_walked(t, from, to, lex, k - 1);
        let row = t.program.map.children@[k - 1];
        let i = child_at(t.children@, row.uuid@);
        if 0 <= i < t.children@.len() {
            let c = t.children@[i].1;
            let sub = walked(
                c,
                from + "children/"@ + row.uuid@ + seq!['/'],
                to + two_digits(k as nat) + seq!['-'] + c.program.slug@ + seq!['/'],
                Some(t.program.title@),
                lex,
            );
            (before.0 + sub.0, before.1 + sub.1)
        } else {
            before
        }
    }
}

proof fn lemma_child_at(cs: Seq<(String, Tree)>, u: Seq<char>)
    ensures
        0 <= child_at(cs, u) <= cs.len(),
        (child_at(cs, u) < cs.len()) == (child_of(cs, u) is Some),
    decreases cs.len(),
{
    if cs.len() > 0 && cs[0].0@ != u {
        lemma_child_at(cs.drop_first(), u);
    }
}

proof fn lemma_kid_step(t: Tree, from: Seq<char>, to: Seq<char>, lex: Lexicon, k: int)
    requires
        0 <= k < t.program.map.children@.len(),
    ensures
        ({
            let row = t.program.map.children@[k];
            let i = child_at(t.children@, row.uuid@);
            let before = kids_walked(t, from, to, lex, k);
            kids_walked(t, from, to, lex, k + 1) == if 0 <= i < t.children@.len() {
                let c = t.children@[i].1;
                let sub = walked(
                    c,
                    from + "children/"@ + row.uuid@ + seq!['/'],
                    to + two_digits((k + 1) as nat) + seq!['-'] + c.program.slug@ + seq!['/'],
                    Some(t.program.title@),
                    lex,
                );
                (before.0 + sub.0, before.1 + sub.1)
            } else {
                before
            }
        }),
{
    reveal(walked);
    reveal_with_fuel(kids_walked, 2);
}

proof fn lemma_walked(
    t: Tree,
    from: Seq<char>,
    to: Seq<char>,
    parent: Option<Seq<char>>,
    lex: Lexicon,
)
    ensures
        ({
            let w = lex.words_for(t.program.generation.locale@);
            let own = seq![(to + "index.md"@, index::page_of(t, parent, w))] + stage_pages(
                t,
                to,
                w,
                t.program.map.stages@.len() as int,
            );
            let assets = t.assets@.map_values(|a: String| (from + a@, to + a@));
            let kids = kids_walked(t, from, to, lex, t.program.map.children@.len() as int);
            walked(t, from, to, parent, lex) == (own + kids.0, assets + kids.1)
        }),
{
    reveal(walked);
    reveal_with_fuel(kids_walked, 1);
}

fn glued(a: &str, b: &str) -> (r: String)
    ensures
        r@ == a@ + b@,
{
    let mut out: Vec<char> = Vec::new();
    put_str(&mut out, a);
    put_str(&mut out, b);
    string_of(out.as_slice())
}

fn found_stage(stages: &Vec<(String, Stage)>, id: &String) -> (r: Option<usize>)
    ensures
        match r {
            Some(k) => k < stages@.len() && stage_of(stages@, id@) == Some(stages@[k as int].1),
            None => stage_of(stages@, id@) is None,
        },
{
    let mut k: usize = 0;
    assert(stages@.skip(0) == stages@);
    while k < stages.len()
        invariant
            k <= stages@.len(),
            stage_of(stages@, id@) == stage_of(stages@.skip(k as int), id@),
        decreases stages.len() - k,
    {
        assert(stages@.skip(k as int)[0] == stages@[k as int]);
        assert(stages@.skip(k as int).drop_first() == stages@.skip(k + 1));
        if same(stages[k].0.as_str(), id.as_str()) {
            return Some(k);
        }
        k = k + 1;
    }
    None
}

/// The pages and the assets of a whole program tree: the index and the stage
/// pages of each program, in a folder of its own under that of its parent,
/// and the assets each program carries.
pub fn render(tree: &Tree, lexicon: &Lexicon) -> (e: Export)
    ensures
        pages_of(e) == walked(*tree, Seq::empty(), Seq::empty(), None, *lexicon).0,
        assets_of(e) == walked(*tree, Seq::empty(), Seq::empty(), None, *lexicon).1,
{
    let mut export = Export { pages: Vec::new(), assets: Vec::new() };
    proof {
        reveal_strlit("");
    }
    let none: Option<&str> = None;
    assert(""@ =~= Seq::<char>::empty());
    assert(up_of(none) == None::<Seq<char>>);
    assert(pages_of(export) =~= Seq::empty());
    assert(assets_of(export) =~= Seq::empty());
    walk(tree, "", "", none, lexicon, &mut export);
    assert(pages_of(export) =~= walked(*tree, Seq::empty(), Seq::empty(), None, *lexicon).0);
    assert(assets_of(export) =~= walked(*tree, Seq::empty(), Seq::empty(), None, *lexicon).1);
    export
}

pub open spec fn up_of(parent: Option<&str>) -> Option<Seq<char>> {
    match parent {
        Some(up) => Some(up@),
        None => None,
    }
}

fn walk(
    tree: &Tree,
    from: &str,
    to: &str,
    parent: Option<&str>,
    lexicon: &Lexicon,
    export: &mut Export,
)
    ensures
        pages_of(*final(export)) == pages_of(*old(export)) + walked(
            *tree,
            from@,
            to@,
            up_of(parent),
            *lexicon,
        ).0,
        assets_of(*final(export)) == assets_of(*old(export)) + walked(
            *tree,
            from@,
            to@,
            up_of(parent),
            *lexicon,
        ).1,
    decreases tree, 1int,
{
    let ghost pages0 = pages_of(*export);
    let ghost assets0 = assets_of(*export);
    let program = &tree.program;
    let words = lexicon.of(program.generation.locale.as_str());
    let path = glued(to, "index.md");
    let text = index::page(tree, parent, words);
    proof {
        reveal_strlit("index.md");
    }
    let ghost head = seq![(to@ + "index.md"@, index::page_of(*tree, up_of(parent), *words))];
    let ghost one = Page { path, text };
    export.pages.push(Page { path, text });
    assert(pages_of(*export) =~= pages0 + head);
    stage_part(tree, to, words, export);
    let ghost pages1 = pages_of(*export);
    asset_part(&tree.assets, from, to, export);
    let ghost assets1 = assets_of(*export);
    kids_part(tree, from, to, lexicon, export);
    proof {
        lemma_walked(*tree, from@, to@, up_of(parent), *lexicon);
    }
    assert(pages_of(*export) =~= pages0 + walked(*tree, from@, to@, up_of(parent), *lexicon).0);
    assert(assets_of(*export) =~= assets0 + walked(*tree, from@, to@, up_of(parent), *lexicon).1);
}

fn stage_part(tree: &Tree, to: &str, words: &Words, export: &mut Export)
    ensures
        pages_of(*final(export)) == pages_of(*old(export)) + stage_pages(
            *tree,
            to@,
            *words,
            tree.program.map.stages@.len() as int,
        ),
        assets_of(*final(export)) == assets_of(*old(export)),
{
    let ghost pages0 = pages_of(*export);
    let rows = &tree.program.map.stages;
    let mut place: usize = 0;
    proof {
        reveal(stage_pages);
    }
    assert(pages_of(*export) =~= pages0 + stage_pages(*tree, to@, *words, 0));
    while place < rows.len()
        invariant
            place <= rows@.len(),
            rows == &tree.program.map.stages,
            pages_of(*export) == pages0 + stage_pages(*tree, to@, *words, place as int),
            assets_of(*export) == assets_of(*old(export)),
        decreases rows.len() - place,
    {
        let row = &rows[place];
        let ghost was = pages_of(*export);
        proof {
            reveal(stage_pages);
            reveal_strlit(".md");
        }
        match found_stage(&tree.stages, &row.id) {
            Some(k) => {
                let f = file(place, row.id.as_str());
                let path = glued(to, f.as_str());
                let text = stage::page(&tree.stages[k].1, tree.program.title.as_str(), words);
                assert(path@ =~= to@ + two_digits((place + 1) as nat) + seq!['-'] + row.id@ + ".md"@);
                export.pages.push(Page { path, text });
                assert(pages_of(*export) =~= was + seq![(path@, text@)]);
            },
            None => {},
        }
        place = place + 1;
        assert(pages_of(*export) =~= pages0 + stage_pages(*tree, to@, *words, place as int));
    }
}

fn asset_part(assets: &Vec<String>, from: &str, to: &str, export: &mut Export)
    ensures
        pages_of(*final(export)) == pages_of(*old(export)),
        assets_of(*final(export)) == assets_of(*old(export)) + assets@.map_values(
            |x: String| (from@ + x@, to@ + x@),
        ),
{
    let ghost assets0 = assets_of(*export);
    let mut a: usize = 0;
    assert(assets_of(*export) =~= assets0 + assets@.take(0).map_values(
        |x: String| (from@ + x@, to@ + x@),
    ));
    while a < assets.len()
        invariant
            a <= assets@.len(),
            pages_of(*export) == pages_of(*old(export)),
            assets_of(*export) == assets0 + assets@.take(a as int).map_values(
                |x: String| (from@ + x@, to@ + x@),
            ),
        decreases assets.len() - a,
    {
        let one = Asset { from: glued(from, assets[a].as_str()), to: glued(to, assets[a].as_str()) };
        let ghost was = assets_of(*export);
        export.assets.push(one);
        assert(assets_of(*export) =~= was.push(asset_view(one)));
        a = a + 1;
        assert(assets@.take(a as int) =~= assets@.take(a - 1).push(assets@[a - 1]));
        assert(assets_of(*export) =~= assets0 + assets@.take(a as int).map_values(
            |x: String| (from@ + x@, to@ + x@),
        ));
    }
    assert(assets@.take(a as int) =~= assets@);
}

fn kids_part(tree: &Tree, from: &str, to: &str, lexicon: &Lexicon, export: &mut Export)
    ensures
        pages_of(*final(export)) == pages_of(*old(export)) + kids_walked(
            *tree,
            from@,
            to@,
            *lexicon,
            tree.program.map.children@.len() as int,
        ).0,
        assets_of(*final(export)) == assets_of(*old(export)) + kids_walked(
            *tree,
            from@,
            to@,
            *lexicon,
            tree.program.map.children@.len() as int,
        ).1,
    decreases tree, 0int,
{
    let ghost pages0 = pages_of(*export);
    let ghost assets0 = assets_of(*export);
    let kids = &tree.program.map.children;
    let mut place: usize = 0;
    proof {
        reveal(kids_walked);
    }
    assert(pages_of(*export) =~= pages0 + kids_walked(*tree, from@, to@, *lexicon, 0).0);
    assert(assets_of(*export) =~= assets0 + kids_walked(*tree, from@, to@, *lexicon, 0).1);
    while place < kids.len()
        invariant
            place <= kids@.len(),
            kids == &tree.program.map.children,
            pages_of(*export) == pages0 + kids_walked(*tree, from@, to@, *lexicon, place as int).0,
            assets_of(*export) == assets0 + kids_walked(*tree, from@, to@, *lexicon, place as int).1,
        decreases kids.len() - place,
    {
        let row = &kids[place];
        proof {
            lemma_child_at(tree.children@, row.uuid@);
            lemma_kid_step(*tree, from@, to@, *lexicon, place as int);
            reveal_strlit("children/");
        }
        let ghost was_p = pages_of(*export);
        let ghost was_a = assets_of(*export);
        match find_child(&tree.children, &row.uuid) {
            Some(k) => {
                let child = &tree.children[k].1;
                let mut f: Vec<char> = Vec::new();
                put_str(&mut f, from);
                put_str(&mut f, "children/");
                put_str(&mut f, row.uuid.as_str());
                f.push('/');
                let down_from = string_of(f.as_slice());
                let d = folder(place, child.program.slug.as_str());
                let mut t: Vec<char> = Vec::new();
                put_str(&mut t, to);
                put_str(&mut t, d.as_str());
                t.push('/');
                let down_to = string_of(t.as_slice());
                assert(down_from@ =~= from@ + "children/"@ + row.uuid@ + seq!['/']);
                assert(down_to@ =~= to@ + two_digits((place + 1) as nat) + seq!['-']
                    + child.program.slug@ + seq!['/']);
                assert(decreases_to!(*tree => tree.children));
                assert(decreases_to!(tree.children => tree.children@));
                assert(decreases_to!(tree.children@ => tree.children@[k as int]));
                assert(decreases_to!(tree.children@[k as int] => tree.children@[k as int].1));
                let up = Some(tree.program.title.as_str());
                assert(up_of(up) == Some(tree.program.title@));
                walk(child, down_from.as_str(), down_to.as_str(), up, lexicon, export);

            },
            None => {},
        }
        place = place + 1;
        assert(pages_of(*export) =~= pages0 + kids_walked(*tree, from@, to@, *lexicon, place as int).0);
        assert(assets_of(*export) =~= assets0 + kids_walked(*tree, from@, to@, *lexicon, place as int).1);
    }
}

proof fn lemma_stage_of(stages: Seq<(String, Stage)>, id: Seq<char>)
    requires
        has_stage(stages, id),
    ensures
        stage_of(stages, id) is Some,
    decreases stages.len(),
{
    let k = choose|k: int| 0 <= k < stages.len() && (#[trigger] stages[k]).0@ == id;
    if stages[0].0@ != id {
        assert(stages.drop_first()[k - 1] == stages[k]);
        lemma_stage_of(stages.drop_first(), id);
    }
}

proof fn lemma_child_of(cs: Seq<(String, Tree)>, u: Seq<char>)
    requires
        child_of(cs, u) is Some,
    ensures
        0 <= child_at(cs, u) < cs.len(),
        child_of(cs, u) == Some(cs[child_at(cs, u)].1),
    decreases cs.len(),
{
    if cs[0].0@ != u {
        lemma_child_of(cs.drop_first(), u);
        assert(cs.drop_first()[child_at(cs.drop_first(), u)] == cs[child_at(cs, u)]);
    }
}

/// The pages of the first `k` stages hold those of the first `j`, at the start.
proof fn lemma_stage_pages_grow(t: Tree, to: Seq<char>, w: Words, j: int, k: int)
    requires
        0 <= j <= k,
    ensures
        stage_pages(t, to, w, k).len() >= stage_pages(t, to, w, j).len(),
        stage_pages(t, to, w, k).take(stage_pages(t, to, w, j).len() as int) == stage_pages(t, to, w, j),
    decreases k - j,
{
    if j < k {
        lemma_stage_pages_grow(t, to, w, j, k - 1);
        reveal(stage_pages);
        let a = stage_pages(t, to, w, k - 1);
        let b = stage_pages(t, to, w, j);
        assert(stage_pages(t, to, w, k).take(a.len() as int) =~= a);
        assert(stage_pages(t, to, w, k).take(b.len() as int) =~= a.take(b.len() as int));
    } else {
        assert(stage_pages(t, to, w, k).take(stage_pages(t, to, w, j).len() as int) =~= stage_pages(t, to, w, j));
    }
}

/// The pages of the first `k` child programs hold those of the first `j`, at the start.
proof fn lemma_kids_grow(t: Tree, from: Seq<char>, to: Seq<char>, lex: Lexicon, j: int, k: int)
    requires
        0 <= j <= k <= t.program.map.children@.len(),
    ensures
        kids_walked(t, from, to, lex, k).0.len() >= kids_walked(t, from, to, lex, j).0.len(),
        kids_walked(t, from, to, lex, k).0.take(kids_walked(t, from, to, lex, j).0.len() as int)
            == kids_walked(t, from, to, lex, j).0,
    decreases k - j,
{
    if j < k {
        lemma_kids_grow(t, from, to, lex, j, k - 1);
        lemma_kid_step(t, from, to, lex, k - 1);
        let a = kids_walked(t, from, to, lex, k - 1).0;
        let b = kids_walked(t, from, to, lex, j).0;
        assert(kids_walked(t, from, to, lex, k).0.take(a.len() as int) =~= a);
        assert(kids_walked(t, from, to, lex, k).0.take(b.len() as int) =~= a.take(b.len() as int));
    } else {
        assert(kids_walked(t, from, to, lex, k).0.take(kids_walked(t, from, to, lex, j).0.len() as int)
            =~= kids_walked(t, from, to, lex, j).0);
    }
}

/// Every stage that the index of a program links to has a page in the
/// export, at the file that the link names.
pub proof fn linked_stages_are_rendered(
    t: Tree,
    from: Seq<char>,
    to: Seq<char>,
    parent: Option<Seq<char>>,
    lex: Lexicon,
    i: int,
)
    requires
        0 <= i < t.program.map.stages@.len(),
        has_stage(t.stages@, t.program.map.stages@[i].id@),
    ensures
        exists|k: int|
            0 <= k < walked(t, from, to, parent, lex).0.len() && (#[trigger] walked(t, from, to, parent, lex).0[k]).0
                == to + two_digits((i + 1) as nat) + seq!['-'] + t.program.map.stages@[i].id@ + ".md"@,
{
    let row = t.program.map.stages@[i];
    let w = lex.words_for(t.program.generation.locale@);
    let n = t.program.map.stages@.len() as int;
    lemma_walked(t, from, to, parent, lex);
    lemma_stage_of(t.stages@, row.id@);
    lemma_stage_pages_grow(t, to, w, i + 1, n);
    reveal(stage_pages);
    let before = stage_pages(t, to, w, i);
    let upto = stage_pages(t, to, w, i + 1);
    assert(upto.len() == before.len() + 1);
    let all = walked(t, from, to, parent, lex).0;
    let k: int = 1 + before.len() as int;
    assert(all[k] == upto[before.len() as int]);
}

/// Every child program that the index of a program links to has its own
/// index in the export, at the path that the link names.
pub proof fn linked_children_are_rendered(
    t: Tree,
    from: Seq<char>,
    to: Seq<char>,
    parent: Option<Seq<char>>,
    lex: Lexicon,
    i: int,
)
    requires
        0 <= i < t.program.map.children@.len(),
        child_of(t.children@, t.program.map.children@[i].uuid@) is Some,
    ensures
        ({
            let c = child_of(t.children@, t.program.map.children@[i].uuid@)->0;
            exists|k: int|
                0 <= k < walked(t, from, to, parent, lex).0.len() && (#[trigger] walked(t, from, to, parent, lex).0[k]).0
                    == to + two_digits((i + 1) as nat) + seq!['-'] + c.program.slug@ + "/index.md"@
        }),
{
    let row = t.program.map.children@[i];
    let c = child_of(t.children@, row.uuid@)->0;
    let n = t.program.map.children@.len() as int;
    lemma_walked(t, from, to, parent, lex);
    lemma_child_of(t.children@, row.uuid@);
    lemma_kid_step(t, from, to, lex, i);
    lemma_kids_grow(t, from, to, lex, i + 1, n);
    let down = to + two_digits((i + 1) as nat) + seq!['-'] + c.program.slug@ + seq!['/'];
    let sub = walked(c, from + "children/"@ + row.uuid@ + seq!['/'], down, Some(t.program.title@), lex);
    lemma_walked(c, from + "children/"@ + row.uuid@ + seq!['/'], down, Some(t.program.title@), lex);
    let before = kids_walked(t, from, to, lex, i).0;
    let upto = kids_walked(t, from, to, lex, i + 1).0;
    assert(upto == before + sub.0);
    assert(sub.0.len() > 0);
    let own = walked(t, from, to, parent, lex).0.len() - kids_walked(t, from, to, lex, n).0.len();
    let all = walked(t, from, to, parent, lex).0;
    let k: int = own + before.len() as int;
    assert(all[k] == kids_walked(t, from, to, lex, n).0[before.len() as int]);
    assert(kids_walked(t, from, to, lex, n).0[before.len() as int] == upto[before.len() as int]);
    assert(upto[before.len() as int] == sub.0[0]);
    reveal_strlit("index.md");
    reveal_strlit("/index.md");
    assert(sub.0[0].0 =~= to + two_digits((i + 1) as nat) + seq!['-'] + c.program.slug@ + "/index.md"@);
}

} // verus!
