//! The file a model's answer holds: the fenced blocks of the answer, and the
//! one among them that declares the schema asked for.
use vstd::prelude::*;

use crate::text::{
    Class, chars_of, join, join_strings, lines, lines_of, put_str, string_of, texts, trim,
    trim_by, trim_chars, trim_start, trim_start_chars, views,
};

verus! {

/// The line opens or closes a fence of backticks.
pub open spec fn fence_line(line: Seq<char>) -> bool {
    let t = trim_start(line);
    t.len() >= 3 && t[0] == '`' && t[1] == '`' && t[2] == '`'
}

/// The blocks found so far, and the lines of the one that is open.
pub struct FoundV {
    pub blocks: Seq<Seq<char>>,
    pub inside: Option<Seq<Seq<char>>>,
}

/// A block closed, where one is open: its lines joined, and a line break.
pub open spec fn closed_v(f: FoundV) -> FoundV {
    match f.inside {
        Some(body) => FoundV { blocks: f.blocks.push(join(body, seq!['\n']) + seq!['\n']), inside: None },
        None => f,
    }
}

/// One line of the answer read.
pub open spec fn step_v(f: FoundV, line: Seq<char>) -> FoundV {
    if fence_line(line) {
        match f.inside {
            None => FoundV { blocks: f.blocks, inside: Some(Seq::empty()) },
            Some(_) => closed_v(f),
        }
    } else {
        match f.inside {
            Some(body) => FoundV { blocks: f.blocks, inside: Some(body.push(line)) },
            None => f,
        }
    }
}

pub open spec fn scan_v(ls: Seq<Seq<char>>) -> FoundV
    decreases ls.len(),
{
    if ls.len() == 0 {
        FoundV { blocks: Seq::empty(), inside: None }
    } else {
        step_v(scan_v(ls.drop_last()), ls.last())
    }
}

/// The blocks fenced by backticks in an answer, a block left open at its end included.
pub open spec fn fenced_of(answer: Seq<char>) -> Seq<Seq<char>> {
    closed_v(scan_v(lines(answer))).blocks
}

fn starts_fence(line: &Vec<char>) -> (r: bool)
    ensures
        r == fence_line(line@),
{
    let t = trim_start_chars(line.as_slice(), &Class::Space);
    t.len() >= 3 && t[0] == '`' && t[1] == '`' && t[2] == '`'
}

fn close_into(inside: &mut Option<Vec<String>>, blocks: &mut Vec<String>)
    ensures
        ({
            let before = FoundV {
                blocks: texts(old(blocks)@),
                inside: match *old(inside) {
                    Some(b) => Some(texts(b@)),
                    None => None,
                },
            };
            &&& texts(final(blocks)@) == closed_v(before).blocks
            &&& (*final(inside)) is None
        }),
{
    match inside.take() {
        Some(body) => {
            let mut joined = join_strings(&body, "\n");
            proof {
                reveal_strlit("\n");
                assert("\n"@ =~= seq!['\n']);
            }
            crate::text::push_char(&mut joined, '\n');
            assert(joined@ =~= join(texts(body@), seq!['\n']) + seq!['\n']);
            let ghost was = texts(blocks@);
            blocks.push(joined);
            assert(texts(blocks@) =~= was.push(join(texts(body@), seq!['\n']) + seq!['\n']));
        },
        None => {},
    }
}

/// The blocks fenced by backticks in an answer.
pub fn fenced(answer: &str) -> (r: Vec<String>)
    ensures
        texts(r@) == fenced_of(answer@),
{
    let s = chars_of(answer);
    let ls = lines_of(s.as_slice());
    let mut blocks: Vec<String> = Vec::new();
    let mut inside: Option<Vec<String>> = None;
    let mut i: usize = 0;
    while i < ls.len()
        invariant
            i <= ls@.len(),
            ({
                let f = scan_v(views(ls@).take(i as int));
                &&& texts(blocks@) == f.blocks
                &&& match inside {
                    Some(b) => f.inside == Some(texts(b@)),
                    None => f.inside is None,
                }
            }),
        decreases ls.len() - i,
    {
        assert(views(ls@).take(i + 1).drop_last() == views(ls@).take(i as int));
        assert(views(ls@).take(i + 1).last() == ls@[i as int]@);
        let line = &ls[i];
        if starts_fence(line) {
            if inside.is_none() {
                let fresh: Vec<String> = Vec::new();
                assert(texts(fresh@) =~= Seq::<Seq<char>>::empty());
                inside = Some(fresh);
            } else {
                close_into(&mut inside, &mut blocks);
            }
        } else {
            match &mut inside {
                Some(body) => {
                    let ghost was = texts(body@);
                    body.push(string_of(line.as_slice()));
                    assert(texts(body@) =~= was.push(line@));
                },
                None => {},
            }
        }
        i = i + 1;
    }
    assert(views(ls@).take(i as int) == lines(answer@));
    close_into(&mut inside, &mut blocks);
    blocks
}

/// The line names the schema: `schema:`, then the name, maybe quoted.
pub open spec fn names_schema(line: Seq<char>, schema: Seq<char>) -> bool {
    let head = seq!['s', 'c', 'h', 'e', 'm', 'a', ':'];
    line.len() >= 7 && line.take(7) == head && trim_by(trim(line.skip(7)), Class::Quote) == schema
}

/// Some line of the block names the schema.
pub open spec fn declares_of(block: Seq<char>, schema: Seq<char>) -> bool {
    exists|i: int| 0 <= i < lines(block).len() && names_schema(#[trigger] lines(block)[i], schema)
}

fn declares(block: &str, schema: &str) -> (r: bool)
    ensures
        r == declares_of(block@, schema@),
{
    let s = chars_of(block);
    let ls = lines_of(s.as_slice());
    let want = chars_of(schema);
    let mut i: usize = 0;
    while i < ls.len()
        invariant
            i <= ls@.len(),
            views(ls@) == lines(block@),
            want@ == schema@,
            forall|j: int| 0 <= j < i ==> !names_schema(#[trigger] lines(block@)[j], schema@),
        decreases ls.len() - i,
    {
        let line = &ls[i];
        assert(lines(block@)[i as int] == line@);
        if line.len() >= 7 && line[0] == 's' && line[1] == 'c' && line[2] == 'h' && line[3] == 'e'
            && line[4] == 'm' && line[5] == 'a' && line[6] == ':' {
            assert(line@.take(7) =~= seq!['s', 'c', 'h', 'e', 'm', 'a', ':']);
            let rest = crate::text::slice(line.as_slice(), 7, line.len());
            let t = trim_chars(rest.as_slice(), &Class::Space);
            let q = trim_chars(t.as_slice(), &Class::Quote);
            let qs = string_of(q.as_slice());
            if crate::text::same(qs.as_str(), schema) {
                return true;
            }
        } else {
            assert(!(line@.len() >= 7 && line@.take(7) =~= seq!['s', 'c', 'h', 'e', 'm', 'a', ':']))
                by {
                if line@.len() >= 7 && line@.take(7) =~= seq!['s', 'c', 'h', 'e', 'm', 'a', ':'] {
                    assert(line@.take(7)[0] == line@[0]);
                    assert(line@.take(7)[1] == line@[1]);
                    assert(line@.take(7)[2] == line@[2]);
                    assert(line@.take(7)[3] == line@[3]);
                    assert(line@.take(7)[4] == line@[4]);
                    assert(line@.take(7)[5] == line@[5]);
                    assert(line@.take(7)[6] == line@[6]);
                }
            }
        }
        i = i + 1;
    }
    false
}

/// The first block that declares the schema.
pub open spec fn first_declaring(bs: Seq<Seq<char>>, schema: Seq<char>) -> Option<Seq<char>>
    decreases bs.len(),
{
    if bs.len() == 0 {
        None
    } else if declares_of(bs[0], schema) {
        Some(bs[0])
    } else {
        first_declaring(bs.drop_first(), schema)
    }
}

/// The file of the schema in an answer: the first fenced block that declares
/// it, or the whole answer where it fences nothing and declares it.
pub open spec fn pick_of(answer: Seq<char>, schema: Seq<char>) -> Option<Seq<char>> {
    let f = fenced_of(answer);
    first_declaring(
        if f.len() == 0 {
            seq![answer]
        } else {
            f
        },
        schema,
    )
}

pub fn pick(answer: &str, schema: &str) -> (r: Option<String>)
    ensures
        match r {
            Some(s) => pick_of(answer@, schema@) == Some(s@),
            None => pick_of(answer@, schema@) is None,
        },
{
    let mut blocks = fenced(answer);
    if blocks.len() == 0 {
        blocks.push(crate::text::owned(answer));
        assert(texts(blocks@) =~= seq![answer@]);
    }
    let ghost bs = texts(blocks@);
    assert(bs == (if fenced_of(answer@).len() == 0 {
        seq![answer@]
    } else {
        fenced_of(answer@)
    }));
    assert(bs.skip(0) == bs);
    let mut k: usize = 0;
    while k < blocks.len()
        invariant
            k <= blocks@.len(),
            bs == texts(blocks@),
            pick_of(answer@, schema@) == first_declaring(bs, schema@),
            first_declaring(bs, schema@) == first_declaring(bs.skip(k as int), schema@),
        decreases blocks.len() - k,
    {
        assert(bs.skip(k as int)[0] == blocks@[k as int]@);
        if declares(blocks[k].as_str(), schema) {
            return Some(blocks[k].clone());
        }
        assert(bs.skip(k as int).drop_first() == bs.skip(k + 1));
        k = k + 1;
    }
    None
}

} // verus!

verus! {

proof fn lemma_first_declaring(bs: Seq<Seq<char>>, schema: Seq<char>)
    ensures
        first_declaring(bs, schema) matches Some(b) ==> declares_of(b, schema) && bs.contains(b),
    decreases bs.len(),
{
    if bs.len() > 0 && !declares_of(bs[0], schema) {
        lemma_first_declaring(bs.drop_first(), schema);
        match first_declaring(bs, schema) {
            Some(b) => {
                let k = choose|k: int| 0 <= k < bs.drop_first().len() && bs.drop_first()[k] == b;
                assert(bs[k + 1] == b);
            },
            None => {},
        }
    } else if bs.len() > 0 {
        assert(bs[0] == bs[0]);
    }
}

/// What is picked from an answer declares the schema asked for, and is one of
/// the answer's blocks, or the answer itself where it fences none.
pub proof fn picked_declares(answer: Seq<char>, schema: Seq<char>)
    ensures
        pick_of(answer, schema) matches Some(b) ==> declares_of(b, schema) && (fenced_of(
            answer,
        ).contains(b) || (fenced_of(answer).len() == 0 && b == answer)),
{
    let f = fenced_of(answer);
    let bs = if f.len() == 0 {
        seq![answer]
    } else {
        f
    };
    lemma_first_declaring(bs, schema);
    if f.len() == 0 {
        match pick_of(answer, schema) {
            Some(b) => {
                let k = choose|k: int| 0 <= k < bs.len() && bs[k] == b;
                assert(bs[0] == answer);
            },
            None => {},
        }
    }
}

} // verus!
