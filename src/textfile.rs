//! The text export format: one record per line, lines joined by `\r\n`, each
//! text with its line feeds written `\n` and carriage returns written `\r`.
//! Importing splits on `\r\n` and turns `\r` back first, then `\n`.
use vstd::prelude::*;
use crate::codec::{utf8_text, decode_utf8_lossy};
use vstd::utf8::encode_utf8;

verus! {

pub const CR: u8 = 0x0D;
pub const LF: u8 = 0x0A;
pub const BACKSLASH: u8 = 0x5C;

/// `b` with each line feed written `\n` and each carriage return `\r`.
pub open spec fn escape(b: Seq<u8>) -> Seq<u8>
    decreases b.len(),
{
    if b.len() == 0 {
        seq![]
    } else {
        let c = b.last();
        escape(b.drop_last()) + if c == LF {
            seq![BACKSLASH, 0x6Eu8]
        } else if c == CR {
            seq![BACKSLASH, 0x72u8]
        } else {
            seq![c]
        }
    }
}

/// The export of `texts`: their escaped forms joined by `\r\n`.
pub open spec fn export_bytes(texts: Seq<Seq<u8>>) -> Seq<u8>
    decreases texts.len(),
{
    if texts.len() == 0 {
        seq![]
    } else if texts.len() == 1 {
        escape(texts[0])
    } else {
        export_bytes(texts.drop_last()) + seq![CR, LF] + escape(texts.last())
    }
}

/// Writes the export of `texts`.
pub fn export_strings(texts: &Vec<String>) -> (r: Vec<u8>)
    ensures
        r@ == export_bytes(texts@.map_values(|t: String| encode_utf8(t@))),
{
    let ghost views = texts@.map_values(|t: String| encode_utf8(t@));
    let mut out: Vec<u8> = Vec::new();
    let mut k: usize = 0;
    while k < texts.len()
        invariant
            k <= texts@.len(),
            views == texts@.map_values(|t: String| encode_utf8(t@)),
            out@ == export_bytes(views.take(k as int)),
        decreases texts@.len() - k,
    {
        assert(views.take(k + 1).drop_last() =~= views.take(k as int));
        if k > 0 {
            out.push(CR);
            out.push(LF);
        }
        let b = texts[k].as_str().as_bytes();
        let ghost start = out@;
        let mut i: usize = 0;
        assert(b@.take(0) =~= Seq::<u8>::empty());
        while i < b.len()
            invariant
                i <= b@.len(),
                out@ == start + escape(b@.take(i as int)),
            decreases b@.len() - i,
        {
            assert(b@.take(i + 1).drop_last() =~= b@.take(i as int));
            let c = b[i];
            if c == LF {
                out.push(BACKSLASH);
                out.push(0x6E);
            } else if c == CR {
                out.push(BACKSLASH);
                out.push(0x72);
            } else {
                out.push(c);
            }
            i += 1;
            assert(out@ =~= start + escape(b@.take(i as int)));
        }
        assert(b@.take(b@.len() as int) =~= b@);
        assert(views.take(k + 1).last() == b@);
        if k > 0 {
            assert(out@ =~= export_bytes(views.take(k + 1)));
        } else {
            assert(out@ =~= export_bytes(views.take(k + 1)));
        }
        k += 1;
    }
    assert(views.take(texts@.len() as int) =~= views);
    out
}

/// The lines of `b`, split at each `\r\n`, left to right.
pub open spec fn split_crlf(b: Seq<u8>) -> Seq<Seq<u8>>
    decreases b.len(),
{
    if b.len() < 2 {
        seq![b]
    } else if b[0] == CR && b[1] == LF {
        seq![Seq::<u8>::empty()] + split_crlf(b.skip(2))
    } else {
        prepend(seq![b[0]], split_crlf(b.skip(1)))
    }
}

/// `lines` with `p` put before its first line.
pub open spec fn prepend(p: Seq<u8>, lines: Seq<Seq<u8>>) -> Seq<Seq<u8>> {
    lines.update(0, p + lines[0])
}

/// `b` with each two-byte pair `x y` replaced by `z`, left to right.
pub open spec fn replace_pair(b: Seq<u8>, x: u8, y: u8, z: u8) -> Seq<u8>
    decreases b.len(),
{
    if b.len() < 2 {
        b
    } else if b[0] == x && b[1] == y {
        seq![z] + replace_pair(b.skip(2), x, y, z)
    } else {
        seq![b[0]] + replace_pair(b.skip(1), x, y, z)
    }
}

/// A line of an export, with `\r` turned back first, then `\n`.
pub open spec fn unescape(b: Seq<u8>) -> Seq<u8> {
    replace_pair(replace_pair(b, BACKSLASH, 0x72u8, CR), BACKSLASH, 0x6Eu8, LF)
}

proof fn lemma_split_nonempty(b: Seq<u8>)
    ensures
        split_crlf(b).len() >= 1,
    decreases b.len(),
{
    if b.len() >= 2 {
        if b[0] == CR && b[1] == LF {
            lemma_split_nonempty(b.skip(2));
        } else {
            lemma_split_nonempty(b.skip(1));
        }
    }
}

fn replace_pair_exec(b: &Vec<u8>, x: u8, y: u8, z: u8) -> (r: Vec<u8>)
    ensures
        r@ == replace_pair(b@, x, y, z),
{
    let mut out: Vec<u8> = Vec::new();
    let mut i: usize = 0;
    assert(b@.skip(0) =~= b@);
    while i < b.len()
        invariant
            i <= b@.len(),
            replace_pair(b@, x, y, z) == out@ + replace_pair(b@.skip(i as int), x, y, z),
        decreases b@.len() - i,
    {
        let ghost rest = b@.skip(i as int);
        if i + 1 < b.len() && b[i] == x && b[i + 1] == y {
            assert(rest.skip(2) =~= b@.skip(i + 2));
            out.push(z);
            assert(replace_pair(b@, x, y, z) =~= out@ + replace_pair(b@.skip(i + 2), x, y, z));
            i += 2;
        } else {
            proof {
                if rest.len() >= 2 {
                    assert(rest.skip(1) =~= b@.skip(i + 1));
                } else {
                    assert(b@.skip(i + 1) =~= Seq::<u8>::empty());
                    assert(replace_pair(b@.skip(i + 1), x, y, z) =~= Seq::<u8>::empty());
                    assert(rest =~= seq![b@[i as int]]);
                }
            }
            out.push(b[i]);
            assert(replace_pair(b@, x, y, z) =~= out@ + replace_pair(b@.skip(i + 1), x, y, z));
            i += 1;
        }
    }
    assert(replace_pair(b@.skip(i as int), x, y, z) =~= Seq::<u8>::empty());
    assert(out@ + Seq::<u8>::empty() =~= out@);
    out
}

/// Splits an export into its lines, unescaped.
pub fn import_lines(content: &[u8]) -> (r: Vec<Vec<u8>>)
    ensures
        r@.len() == split_crlf(content@).len(),
        forall|k: int| 0 <= k < r@.len() ==> (#[trigger] r@[k])@ == unescape(split_crlf(content@)[k]),
{
    let ghost all = split_crlf(content@);
    let mut raw: Vec<Vec<u8>> = Vec::new();
    let mut cur: Vec<u8> = Vec::new();
    let mut i: usize = 0;
    assert(content@.skip(0) =~= content@);
    assert(prepend(Seq::<u8>::empty(), all) =~= all) by {
        lemma_split_nonempty(content@);
    }
    while content.len() - i >= 2
        invariant
            i <= content@.len(),
            all == raw@.map_values(|l: Vec<u8>| l@) + prepend(cur@, split_crlf(content@.skip(i as int))),
        decreases content@.len() - i,
    {
        let ghost rest = content@.skip(i as int);
        proof {
            lemma_split_nonempty(rest.skip(1));
            lemma_split_nonempty(rest.skip(2));
        }
        if content[i] == CR && content[i + 1] == LF {
            assert(rest.skip(2) =~= content@.skip(i + 2));
            let ghost tail = split_crlf(content@.skip(i + 2));
            let ghost old_raw = raw@.map_values(|l: Vec<u8>| l@);
            let line = cur;
            cur = Vec::new();
            raw.push(line);
            assert(raw@.map_values(|l: Vec<u8>| l@) =~= old_raw.push(line@));
            assert(prepend(line@, seq![Seq::<u8>::empty()] + tail) =~= seq![line@] + tail);
            assert(prepend(cur@, tail) =~= tail);
            assert(all =~= raw@.map_values(|l: Vec<u8>| l@) + prepend(cur@, tail));
            i += 2;
        } else {
            assert(rest.skip(1) =~= content@.skip(i + 1));
            let ghost tail = split_crlf(content@.skip(i + 1));
            let ghost old_cur = cur@;
            cur.push(content[i]);
            assert(tail.len() >= 1);
            assert(old_cur + (seq![content@[i as int]] + tail[0]) =~= cur@ + tail[0]);
            assert(prepend(old_cur, prepend(seq![content@[i as int]], tail)) =~= prepend(cur@, tail));
            i += 1;
        }
    }
    let ghost last = content@.skip(i as int);
    assert(split_crlf(last) == seq![last]);
    while i < content.len()
        invariant
            i <= content@.len(),
            all == raw@.map_values(|l: Vec<u8>| l@) + seq![cur@ + content@.skip(i as int)],
        decreases content@.len() - i,
    {
        let ghost old_cur = cur@;
        cur.push(content[i]);
        assert(old_cur + content@.skip(i as int) =~= cur@ + content@.skip(i + 1));
        i += 1;
    }
    assert(cur@ + content@.skip(i as int) =~= cur@);
    raw.push(cur);
    assert(all =~= raw@.map_values(|l: Vec<u8>| l@));
    let mut out: Vec<Vec<u8>> = Vec::new();
    let mut k: usize = 0;
    while k < raw.len()
        invariant
            k <= raw@.len(),
            all == raw@.map_values(|l: Vec<u8>| l@),
            out@.len() == k,
            forall|j: int| 0 <= j < k ==> (#[trigger] out@[j])@ == unescape(all[j]),
        decreases raw@.len() - k,
    {
        let once = replace_pair_exec(&raw[k], BACKSLASH, 0x72, CR);
        let twice = replace_pair_exec(&once, BACKSLASH, 0x6E, LF);
        out.push(twice);
        k += 1;
    }
    out
}

/// Reads an export back into texts, one per line; invalid UTF-8 decodes
/// lossily.
pub fn import_strings(content: &[u8]) -> (r: Vec<String>)
    ensures
        r@.len() == split_crlf(content@).len(),
        forall|k: int| 0 <= k < r@.len() ==> (#[trigger] r@[k])@ == utf8_text(unescape(split_crlf(content@)[k])),
{
    let lines = import_lines(content);
    let mut out: Vec<String> = Vec::new();
    let mut k: usize = 0;
    while k < lines.len()
        invariant
            k <= lines@.len(),
            lines@.len() == split_crlf(content@).len(),
            forall|j: int| 0 <= j < lines@.len() ==> (#[trigger] lines@[j])@ == unescape(split_crlf(content@)[j]),
            out@.len() == k,
            forall|j: int| 0 <= j < k ==> (#[trigger] out@[j])@ == utf8_text(unescape(split_crlf(content@)[j])),
        decreases lines@.len() - k,
    {
        out.push(decode_utf8_lossy(lines[k].as_slice()));
        k += 1;
    }
    out
}

} // verus!
