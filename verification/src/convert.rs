//! The offline conversion, as far as it is decided on bytes: which files
//! are still to be converted, what they are called afterwards, and how a
//! scene description is made to refer to them.

use vstd::prelude::*;

verus! {

/// The twelve bytes that a container file starts with.
pub open spec fn container_magic() -> Seq<u8> {
    seq![0xabu8, 0x4bu8, 0x54u8, 0x58u8, 0x20u8, 0x32u8, 0x30u8, 0xbbu8, 0x0du8, 0x0au8, 0x1au8, 0x0au8]
}

/// Whether `head` starts like a container file.
pub open spec fn is_container(head: Seq<u8>) -> bool {
    head.len() >= 12 && head.take(12) == container_magic()
}

/// Whether `.png` stands at `at`.
pub open spec fn png_at(text: Seq<u8>, at: int) -> bool {
    0 <= at && at + 4 <= text.len() && text[at] == 46 && text[at + 1] == 112 && text[at + 2] == 110
        && text[at + 3] == 103
}

/// Whether `.jpg` stands at `at`.
pub open spec fn jpg_at(text: Seq<u8>, at: int) -> bool {
    0 <= at && at + 4 <= text.len() && text[at] == 46 && text[at + 1] == 106 && text[at + 2] == 112
        && text[at + 3] == 103
}

/// Whether `.jpeg` stands at `at`.
pub open spec fn jpeg_at(text: Seq<u8>, at: int) -> bool {
    0 <= at && at + 5 <= text.len() && text[at] == 46 && text[at + 1] == 106 && text[at + 2] == 112
        && text[at + 3] == 101 && text[at + 4] == 103
}

/// The length of the source extension that stands at `at`, zero if none
/// does.
pub open spec fn source_extension_at(text: Seq<u8>, at: int) -> int {
    if png_at(text, at) || jpg_at(text, at) {
        4
    } else if jpeg_at(text, at) {
        5
    } else {
        0
    }
}

/// The length of the source extension that `name` ends with, zero if it
/// ends with none.
pub open spec fn source_extension(name: Seq<u8>) -> int {
    if source_extension_at(name, name.len() - 4) == 4 {
        4
    } else if source_extension_at(name, name.len() - 5) == 5 {
        5
    } else {
        0
    }
}

/// The extension of a container file: `.ktx2`.
pub open spec fn container_extension() -> Seq<u8> {
    seq![46u8, 107u8, 116u8, 120u8, 50u8]
}

/// The name of the container file for `name`: the source extension
/// replaced, any other name as it is.
pub open spec fn converted_name(name: Seq<u8>) -> Seq<u8> {
    let n = source_extension(name);
    if n == 0 {
        name
    } else {
        name.take(name.len() - n) + container_extension()
    }
}

/// Whether a file is still to be converted: it is named like a source
/// image and does not hold a container already.
pub open spec fn needs_conversion(name: Seq<u8>, head: Seq<u8>) -> bool {
    source_extension(name) != 0 && !is_container(head)
}

/// A scene description with every source extension in it replaced by the
/// container extension, from left to right.
pub open spec fn rewritten(text: Seq<u8>) -> Seq<u8>
    decreases text.len(),
{
    if text.len() == 0 {
        Seq::empty()
    } else {
        let n = source_extension_at(text, 0);
        if n > 0 {
            container_extension() + rewritten(text.skip(n))
        } else {
            seq![text[0]] + rewritten(text.skip(1))
        }
    }
}

/// Whether no source extension stands anywhere in `text`.
pub open spec fn is_rewritten(text: Seq<u8>) -> bool {
    forall|at: int| 0 <= at < text.len() ==> #[trigger] source_extension_at(text, at) == 0
}

/// A converted name is final: it names no source image, so the file under
/// it is never converted again, and converting the name again changes
/// nothing.
pub proof fn lemma_converted_name_is_final(name: Seq<u8>, head: Seq<u8>)
    ensures
        source_extension(converted_name(name)) == 0,
        !needs_conversion(converted_name(name), head),
        converted_name(converted_name(name)) == converted_name(name),
        is_container(head) ==> !needs_conversion(name, head),
{
}

proof fn lemma_shifted(text: Seq<u8>, by: int, at: int)
    requires
        0 <= by <= text.len(),
        0 <= at,
    ensures
        source_extension_at(text.skip(by), at) == source_extension_at(text, by + at),
{
}

proof fn lemma_untouched(text: Seq<u8>)
    requires
        is_rewritten(text),
    ensures
        rewritten(text) == text,
    decreases text.len(),
{
    if text.len() > 0 {
        assert(source_extension_at(text, 0) == 0);
        let rest = text.skip(1);
        assert forall|at: int| 0 <= at < rest.len() implies #[trigger] source_extension_at(rest, at)
            == 0 by {
            lemma_shifted(text, 1, at);
            assert(source_extension_at(text, 1 + at) == 0);
        }
        lemma_untouched(rest);
        assert(seq![text[0]] + rest =~= text);
    }
}

/// What the rewriting of `text` starts with where nothing is replaced at
/// its start.
proof fn lemma_copied(text: Seq<u8>)
    requires
        text.len() > 0,
        source_extension_at(text, 0) == 0,
    ensures
        rewritten(text) == seq![text[0]] + rewritten(text.skip(1)),
        rewritten(text).len() == 1 + rewritten(text.skip(1)).len(),
        rewritten(text)[0] == text[0],
        forall|i: int|
            0 <= i < rewritten(text.skip(1)).len() ==> #[trigger] rewritten(text)[i + 1]
                == rewritten(text.skip(1))[i],
{
}

/// The first byte of a rewriting, if it is no dot, is the first byte of the
/// text.
proof fn lemma_first_byte(text: Seq<u8>)
    requires
        rewritten(text).len() > 0,
        rewritten(text)[0] != 46,
    ensures
        text.len() > 0,
        text[0] == rewritten(text)[0],
        source_extension_at(text, 0) == 0,
        rewritten(text) == seq![text[0]] + rewritten(text.skip(1)),
{
    if text.len() > 0 && source_extension_at(text, 0) > 0 {
        assert(rewritten(text)[0] == container_extension()[0]);
    }
}

/// Where nothing is replaced at the start of a text, no source extension
/// stands at the start of its rewriting: the letters of one would have been
/// copied from the text, where they would have made one too.
proof fn lemma_start_stays_clean(text: Seq<u8>)
    requires
        text.len() > 0,
        source_extension_at(text, 0) == 0,
    ensures
        source_extension_at(rewritten(text), 0) == 0,
{
    let out = rewritten(text);
    lemma_copied(text);
    if source_extension_at(out, 0) > 0 {
        let t1 = text.skip(1);
        assert(rewritten(t1)[0] == out[1]);
        lemma_first_byte(t1);
        let t2 = t1.skip(1);
        assert(rewritten(t1)[1] == out[2]);
        assert(rewritten(t2)[0] == out[2]);
        lemma_first_byte(t2);
        let t3 = t2.skip(1);
        assert(rewritten(t2)[1] == out[3]);
        assert(rewritten(t3)[0] == out[3]);
        lemma_first_byte(t3);
        assert(text[1] == t1[0] && text[2] == t2[0] && text[3] == t3[0]);
        if jpeg_at(out, 0) {
            let t4 = t3.skip(1);
            assert(rewritten(t3)[1] == out[4]);
            assert(rewritten(t4)[0] == out[4]);
            lemma_first_byte(t4);
            assert(text[4] == t4[0]);
        }
        assert(source_extension_at(text, 0) > 0);
    }
}

proof fn lemma_no_extension_left(text: Seq<u8>, at: int)
    requires
        0 <= at < rewritten(text).len(),
    ensures
        source_extension_at(rewritten(text), at) == 0,
    decreases text.len(),
{
    let out = rewritten(text);
    if text.len() > 0 {
        let n = source_extension_at(text, 0);
        if n > 0 {
            let rest = rewritten(text.skip(n));
            assert(out == container_extension() + rest);
            if at >= 5 {
                lemma_no_extension_left(text.skip(n), at - 5);
                lemma_shifted(out, 5, at - 5);
                assert(out.skip(5) =~= rest);
            }
        } else {
            lemma_copied(text);
            let rest = rewritten(text.skip(1));
            if at >= 1 {
                lemma_no_extension_left(text.skip(1), at - 1);
                lemma_shifted(out, 1, at - 1);
                assert(out.skip(1) =~= rest);
            } else {
                lemma_start_stays_clean(text);
            }
        }
    }
}

/// Rewriting is idempotent: a rewritten description holds no source
/// extension, so rewriting it again changes nothing.
pub proof fn lemma_rewriting_is_idempotent(text: Seq<u8>)
    ensures
        is_rewritten(rewritten(text)),
        rewritten(rewritten(text)) == rewritten(text),
{
    assert forall|at: int| 0 <= at < rewritten(text).len() implies #[trigger] source_extension_at(
        rewritten(text),
        at,
    ) == 0 by {
        lemma_no_extension_left(text, at);
    }
    lemma_untouched(rewritten(text));
}

/// Whether the first bytes of a file are those of a container.
pub fn sniff_container(head: &Vec<u8>) -> (container: bool)
    ensures
        container == is_container(head@),
{
    if head.len() < 12 {
        return false;
    }
    let found = head[0] == 0xab && head[1] == 0x4b && head[2] == 0x54 && head[3] == 0x58 && head[4]
        == 0x20 && head[5] == 0x32 && head[6] == 0x30 && head[7] == 0xbb && head[8] == 0x0d
        && head[9] == 0x0a && head[10] == 0x1a && head[11] == 0x0a;
    proof {
        let start = head@.take(12);
        if found {
            assert(start =~= container_magic());
        } else {
            assert(start[0] == head[0] && start[1] == head[1] && start[2] == head[2] && start[3]
                == head[3] && start[4] == head[4] && start[5] == head[5] && start[6] == head[6]
                && start[7] == head[7] && start[8] == head[8] && start[9] == head[9] && start[10]
                == head[10] && start[11] == head[11]);
        }
    }
    found
}

/// The length of the source extension at `at`, zero if none stands there.
pub fn extension_at(text: &Vec<u8>, at: usize) -> (n: usize)
    ensures
        n == source_extension_at(text@, at as int),
{
    if text.len() < 4 || at > text.len() - 4 || text[at] != 46 {
        return 0;
    }
    if text[at + 1] == 112 && text[at + 2] == 110 && text[at + 3] == 103 {
        4
    } else if text[at + 1] == 106 && text[at + 2] == 112 {
        if text[at + 3] == 103 {
            4
        } else if at + 4 < text.len() && text[at + 3] == 101 && text[at + 4] == 103 {
            5
        } else {
            0
        }
    } else {
        0
    }
}

/// The length of the source extension that `name` ends with, zero if it
/// ends with none.
pub fn extension_of(name: &Vec<u8>) -> (n: usize)
    ensures
        n == source_extension(name@),
{
    if name.len() >= 4 && extension_at(name, name.len() - 4) == 4 {
        4
    } else if name.len() >= 5 && extension_at(name, name.len() - 5) == 5 {
        5
    } else {
        0
    }
}

fn push_container_extension(out: &mut Vec<u8>)
    ensures
        final(out)@ == old(out)@ + container_extension(),
{
    out.push(46);
    out.push(107);
    out.push(116);
    out.push(120);
    out.push(50);
    assert(out@ =~= old(out)@ + container_extension());
}

/// The name under which the converted file is written.
pub fn convert_name(name: &Vec<u8>) -> (converted: Vec<u8>)
    ensures
        converted@ == converted_name(name@),
{
    let n = extension_of(name);
    let mut converted: Vec<u8> = Vec::new();
    let stem = name.len() - n;
    let mut i: usize = 0;
    while i < stem
        invariant
            stem <= name.len(),
            i <= stem,
            converted@ == name@.take(i as int),
        decreases stem - i,
    {
        converted.push(name[i]);
        i += 1;
        assert(converted@ =~= name@.take(i as int));
    }
    if n > 0 {
        push_container_extension(&mut converted);
    } else {
        assert(name@.take(stem as int) =~= name@);
    }
    converted
}

/// Decides from a file's name and first bytes whether it is still to be
/// converted.
pub fn should_convert(name: &Vec<u8>, head: &Vec<u8>) -> (convert: bool)
    ensures
        convert == needs_conversion(name@, head@),
{
    extension_of(name) != 0 && !sniff_container(head)
}

/// Makes a scene description refer to the converted files.
pub fn rewrite_references(text: &Vec<u8>) -> (out: Vec<u8>)
    ensures
        out@ == rewritten(text@),
{
    let mut out: Vec<u8> = Vec::new();
    let mut at: usize = 0;
    proof {
        assert(text@.skip(0) =~= text@);
    }
    while at < text.len()
        invariant
            at <= text.len(),
            out@ + rewritten(text@.skip(at as int)) == rewritten(text@),
        decreases text.len() - at,
    {
        let n = extension_at(text, at);
        let ghost rest = text@.skip(at as int);
        let ghost before = out@;
        proof {
            lemma_shifted(text@, at as int, 0);
        }
        if n > 0 {
            push_container_extension(&mut out);
            proof {
                assert(rest.skip(n as int) =~= text@.skip(at + n));
                assert(out@ + rewritten(text@.skip(at + n)) =~= before + rewritten(rest));
            }
            at += n;
        } else {
            out.push(text[at]);
            proof {
                assert(rest.skip(1) =~= text@.skip(at + 1));
                assert(out@ + rewritten(text@.skip(at + 1)) =~= before + rewritten(rest));
            }
            at += 1;
        }
    }
    proof {
        assert(out@ + Seq::<u8>::empty() =~= out@);
    }
    out
}

} // verus!
