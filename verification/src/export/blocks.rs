//! The blocks of a stage as Markdown.
use vstd::prelude::*;

use super::escape::{info, lang_ok, local, local_of};
use super::lines::{
    Doc, heading_of, label, label_of, line_of, longest, longest_of, raw_of,
};
use super::prose::{prose, prose_of};
use super::words::Words;
use crate::block::types::{Block, Kind, opt_str, opt_view};
use crate::text::{
    Class, chars_of, join, join_strings, lines, lines_of, put, put_repeat, put_str, repeat,
    string_of, texts, trim_end, trim_end_chars, views,
};

verus! {

/// The lines of a callout as a block quote.
pub open spec fn quoted_of(ls: Seq<Seq<char>>) -> Seq<Seq<char>> {
    ls.map_values(
        |l: Seq<char>|
            if l.len() == 0 {
                seq!['>']
            } else {
                seq!['>', ' '] + l
            },
    )
}

fn quoted(lines: Vec<String>) -> (out: Vec<String>)
    ensures
        texts(out@) == quoted_of(texts(lines@)),
{
    let mut out: Vec<String> = Vec::new();
    let mut i: usize = 0;
    while i < lines.len()
        invariant
            i <= lines@.len(),
            texts(out@) == quoted_of(texts(lines@)).take(i as int),
        decreases lines.len() - i,
    {
        let l = chars_of(lines[i].as_str());
        let mut q: Vec<char> = Vec::new();
        q.push('>');
        if l.len() > 0 {
            q.push(' ');
            put(&mut q, l.as_slice());
        }
        let ghost was = texts(out@);
        assert(q@ == quoted_of(texts(lines@))[i as int]);
        out.push(string_of(q.as_slice()));
        assert(texts(out@) =~= was.push(q@));
        i = i + 1;
        assert(quoted_of(texts(lines@)).take(i as int) =~= quoted_of(texts(lines@)).take(
            i - 1,
        ).push(q@));
    }
    assert(quoted_of(texts(lines@)).take(i as int) =~= quoted_of(texts(lines@)));
    out
}

/// The fence of a code block: one backtick more than the longest run in the
/// code, and three at least.
pub open spec fn fence_of(code: Seq<char>) -> Seq<char> {
    let n = longest_of(code);
    repeat(
        '`',
        if n > 2 {
            n + 1
        } else {
            3nat
        },
    )
}

/// The info string of a code block in a language, or without one.
pub open spec fn info_of(lang: Option<Seq<char>>) -> Seq<char> {
    match lang {
        Some(l) => if lang_ok(l) {
            l
        } else {
            seq!['t', 'e', 'x', 't']
        },
        None => seq!['t', 'e', 'x', 't'],
    }
}

/// A code block: its fence with the info string, its lines without trailing
/// blanks, and its fence again.
pub open spec fn fenced_of(text: Seq<char>, lang: Option<Seq<char>>) -> Seq<Seq<char>> {
    seq![fence_of(text) + info_of(lang)] + lines(text).map_values(|l: Seq<char>| trim_end(l))
        + seq![fence_of(text)]
}

fn fenced(text: &str, lang: Option<&str>) -> (out: Vec<String>)
    ensures
        texts(out@) == fenced_of(text@, opt_str(lang)),
{
    let n = longest(text);
    let mut fence: Vec<char> = Vec::new();
    if n > 2 {
        put_repeat(&mut fence, '`', n);
        fence.push('`');
        assert(fence@ =~= repeat('`', (n + 1) as nat));
    } else {
        put_repeat(&mut fence, '`', 3);
    }
    let named = info(lang);
    proof {
        reveal_strlit("text");
        assert("text"@ =~= seq!['t', 'e', 'x', 't']);
    }
    let mut head: Vec<char> = Vec::new();
    put(&mut head, fence.as_slice());
    put_str(&mut head, named);
    let mut out: Vec<String> = Vec::new();
    out.push(string_of(head.as_slice()));
    let s = chars_of(text);
    let ls = lines_of(s.as_slice());
    let ghost body = lines(text@).map_values(|l: Seq<char>| trim_end(l));
    let mut i: usize = 0;
    while i < ls.len()
        invariant
            i <= ls@.len(),
            views(ls@) == lines(text@),
            body == lines(text@).map_values(|l: Seq<char>| trim_end(l)),
            texts(out@) == seq![fence_of(text@) + info_of(opt_str(lang))] + body.take(i as int),
        decreases ls.len() - i,
    {
        let t = trim_end_chars(ls[i].as_slice(), &Class::Space);
        let ghost was = texts(out@);
        assert(t@ == body[i as int]);
        out.push(string_of(t.as_slice()));
        assert(texts(out@) =~= was.push(t@));
        i = i + 1;
        assert(body.take(i as int) =~= body.take(i - 1).push(t@));
    }
    assert(body.take(i as int) =~= body);
    let ghost was = texts(out@);
    out.push(string_of(fence.as_slice()));
    assert(texts(out@) =~= was.push(fence@));
    out
}

/// A picture: an image line with the text as its alternative, where the block
/// has an asset; nothing else.
pub open spec fn picture_of(ls: Seq<Seq<char>>, alt: Seq<char>, asset: Option<Seq<char>>) -> Seq<
    Seq<char>,
> {
    match asset {
        Some(a) => raw_of(ls, seq![seq!['!', '['] + label_of(alt) + seq![']', '('] + local_of(a) + seq![')']]),
        None => ls,
    }
}

fn picture(doc: &mut Doc, alt: &str, block: &Block)
    ensures
        final(doc)@ == picture_of(old(doc)@, alt@, opt_view(block.asset)),
{
    match &block.asset {
        Some(asset) => {
            let mut line: Vec<char> = Vec::new();
            line.push('!');
            line.push('[');
            let l = label(alt);
            put_str(&mut line, l.as_str());
            line.push(']');
            line.push('(');
            let a = local(asset.as_str());
            put_str(&mut line, a.as_str());
            line.push(')');
            assert(line@ =~= seq!['!', '['] + label_of(alt@) + seq![']', '('] + local_of(asset@)
                + seq![')']);
            let mut v: Vec<String> = Vec::new();
            v.push(string_of(line.as_slice()));
            assert(texts(v@) =~= seq![line@]);
            doc.raw(v);
        },
        None => {},
    }
}

/// A credit: the word and the value, where there is a value.
pub open spec fn credit_of(word: Seq<char>, value: Option<Seq<char>>) -> Seq<Seq<char>> {
    match value {
        Some(v) => seq![word + seq![':', ' '] + v],
        None => Seq::empty(),
    }
}

/// The credits of an image: its license, author and source, where it names them.
pub open spec fn credits_of(b: Block, w: Words) -> Seq<char> {
    join(
        credit_of(w.license@, opt_view(b.license)) + credit_of(w.author@, opt_view(b.attribution))
            + credit_of(w.source@, opt_view(b.source)),
        seq![' ', '\u{b7}', ' '],
    )
}

fn credit(parts: &mut Vec<String>, word: &String, value: &Option<String>)
    ensures
        texts(final(parts)@) == texts(old(parts)@) + credit_of(word@, opt_view(*value)),
{
    match value {
        Some(v) => {
            let mut line: Vec<char> = Vec::new();
            put_str(&mut line, word.as_str());
            line.push(':');
            line.push(' ');
            put_str(&mut line, v.as_str());
            assert(line@ =~= word@ + seq![':', ' '] + v@);
            let ghost was = texts(parts@);
            parts.push(string_of(line.as_slice()));
            assert(texts(parts@) =~= was + seq![line@]);
        },
        None => {
            assert(texts(parts@) =~= texts(parts@) + Seq::<Seq<char>>::empty());
        },
    }
}

fn credits(block: &Block, words: &Words) -> (r: String)
    ensures
        r@ == credits_of(*block, *words),
{
    let mut parts: Vec<String> = Vec::new();
    credit(&mut parts, &words.license, &block.license);
    credit(&mut parts, &words.author, &block.attribution);
    credit(&mut parts, &words.source, &block.source);
    let r = join_strings(&parts, " \u{b7} ");
    proof {
        reveal_strlit(" \u{b7} ");
        assert(" \u{b7} "@ =~= seq![' ', '\u{b7}', ' ']);
        assert(texts(parts@) =~= credit_of(words.license@, opt_view(block.license)) + credit_of(
            words.author@,
            opt_view(block.attribution),
        ) + credit_of(words.source@, opt_view(block.source)));
    }
    r
}

/// What one block adds to a document under a heading of `depth`.
pub open spec fn block_of(ls: Seq<Seq<char>>, b: Block, depth: nat, w: Words) -> Seq<Seq<char>> {
    match b.kind {
        Kind::Heading => heading_of(ls, depth, b.text@),
        Kind::Paragraph => raw_of(ls, prose_of(b.text@, depth)),
        Kind::Callout => raw_of(ls, quoted_of(prose_of(b.text@, depth))),
        Kind::Code => raw_of(ls, fenced_of(b.text@, opt_view(b.lang))),
        Kind::Diagram => picture_of(ls, w.diagram@, opt_view(b.asset)),
        Kind::Image => {
            let p = picture_of(ls, b.text@, opt_view(b.asset));
            let c = credits_of(b, w);
            if c.len() == 0 {
                p
            } else {
                line_of(p, c)
            }
        },
    }
}

/// What the blocks add to a document, one after the other.
pub open spec fn blocks_of(ls: Seq<Seq<char>>, bs: Seq<Block>, depth: nat, w: Words) -> Seq<
    Seq<char>,
>
    decreases bs.len(),
{
    if bs.len() == 0 {
        ls
    } else {
        block_of(blocks_of(ls, bs.drop_last(), depth, w), bs.last(), depth, w)
    }
}

/// The blocks as Markdown under a heading of `depth`.
pub fn blocks(doc: &mut Doc, blocks: &[Block], depth: usize, words: &Words)
    ensures
        final(doc)@ == blocks_of(old(doc)@, blocks@, depth as nat, *words),
{
    let ghost start = doc@;
    let mut i: usize = 0;
    while i < blocks.len()
        invariant
            i <= blocks@.len(),
            doc@ == blocks_of(start, blocks@.take(i as int), depth as nat, *words),
        decreases blocks.len() - i,
    {
        let block = &blocks[i];
        assert(blocks@.take(i + 1).drop_last() == blocks@.take(i as int));
        match block.kind {
            Kind::Heading => doc.heading(depth, block.text.as_str()),
            Kind::Paragraph => doc.raw(prose(block.text.as_str(), depth)),
            Kind::Callout => doc.raw(quoted(prose(block.text.as_str(), depth))),
            Kind::Code => {
                let lang = crate::block::types::as_deref(&block.lang);
                doc.raw(fenced(block.text.as_str(), lang));
            },
            Kind::Diagram => picture(doc, words.diagram.as_str(), block),
            Kind::Image => {
                picture(doc, block.text.as_str(), block);
                let c = credits(block, words);
                if c.as_str().unicode_len() > 0 {
                    doc.line(c.as_str());
                }
            },
        }
        i = i + 1;
    }
    assert(blocks@.take(i as int) == blocks@);
}

} // verus!
