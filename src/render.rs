use vstd::prelude::*;
use vstd::string::StringSliceAdditionalSpecFns;
use vstd::utf8::*;

verus! {

/// A colour with premultiplied alpha.
#[derive(Clone, Copy, Debug, PartialEq, Eq, Structural)]
pub struct Rgba {
    pub r: u8,
    pub g: u8,
    pub b: u8,
    pub a: u8,
}


/// One render instruction: a style or highlight toggle, or a literal run of text.
#[derive(Clone, Debug)]
pub enum DiffRenderCommand {
    /// Marks the start (`true`) or end (`false`) of a structurally changed range.
    SetHighlight(bool),
    SetBold(bool),
    SetItalic(bool),
    SetUnderline(bool),
    SetColor(Rgba),
    Text(String),
}

/// A render instruction at a byte offset into the rendered text.
#[derive(Clone, Debug)]
pub struct DiffRenderFragment(pub usize, pub DiffRenderCommand);

/// The mathematical value of a render instruction.
pub enum CommandView {
    SetHighlight(bool),
    SetBold(bool),
    SetItalic(bool),
    SetUnderline(bool),
    SetColor(Rgba),
    Text(Seq<char>),
}

/// The mathematical value of a fragment: its offset and instruction.
pub type FragmentView = (int, CommandView);

impl View for DiffRenderCommand {
    type V = CommandView;

    open spec fn view(&self) -> CommandView {
        match self {
            DiffRenderCommand::SetHighlight(b) => CommandView::SetHighlight(*b),
            DiffRenderCommand::SetBold(b) => CommandView::SetBold(*b),
            DiffRenderCommand::SetItalic(b) => CommandView::SetItalic(*b),
            DiffRenderCommand::SetUnderline(b) => CommandView::SetUnderline(*b),
            DiffRenderCommand::SetColor(c) => CommandView::SetColor(*c),
            DiffRenderCommand::Text(s) => CommandView::Text(s@),
        }
    }
}

impl View for DiffRenderFragment {
    type V = FragmentView;

    open spec fn view(&self) -> FragmentView {
        (self.0 as int, self.1@)
    }
}

/// The values of a list of fragments.
pub open spec fn frags_view(v: Seq<DiffRenderFragment>) -> Seq<FragmentView> {
    v.map_values(|f: DiffRenderFragment| f@)
}

impl DiffRenderCommand {
    /// A copy with the same value.
    pub fn duplicate(&self) -> (r: Self)
        ensures
            r@ == self@,
    {
        match self {
            DiffRenderCommand::SetHighlight(b) => DiffRenderCommand::SetHighlight(*b),
            DiffRenderCommand::SetBold(b) => DiffRenderCommand::SetBold(*b),
            DiffRenderCommand::SetItalic(b) => DiffRenderCommand::SetItalic(*b),
            DiffRenderCommand::SetUnderline(b) => DiffRenderCommand::SetUnderline(*b),
            DiffRenderCommand::SetColor(c) => DiffRenderCommand::SetColor(*c),
            DiffRenderCommand::Text(s) => DiffRenderCommand::Text(s.clone()),
        }
    }
}

impl DiffRenderFragment {
    /// A copy with the same value.
    pub fn duplicate(&self) -> (r: Self)
        ensures
            r@ == self@,
    {
        DiffRenderFragment(self.0, self.1.duplicate())
    }
}

// ----- stable ordering by offset -----
/// Inserts `x` after every element whose offset is at most that of `x`.
pub open spec fn insert_by_offset(s: Seq<FragmentView>, x: FragmentView) -> Seq<FragmentView>
    decreases s.len(),
{
    if s.len() == 0 {
        seq![x]
    } else if s.last().0 <= x.0 {
        s.push(x)
    } else {
        insert_by_offset(s.drop_last(), x).push(s.last())
    }
}

/// `s` ordered by offset; fragments at equal offsets keep their relative order.
pub open spec fn sort_by_offset(s: Seq<FragmentView>) -> Seq<FragmentView>
    decreases s.len(),
{
    if s.len() == 0 {
        Seq::empty()
    } else {
        insert_by_offset(sort_by_offset(s.drop_last()), s.last())
    }
}

proof fn lemma_insert_at(s: Seq<FragmentView>, x: FragmentView, j: int)
    requires
        0 <= j <= s.len(),
        forall|k: int| j <= k < s.len() ==> s[k].0 > x.0,
        j > 0 ==> s[j - 1].0 <= x.0,
    ensures
        insert_by_offset(s, x) == s.insert(j, x),
    decreases s.len(),
{
    if s.len() == 0 {
        assert(s.insert(j, x) =~= seq![x]);
    } else if s.last().0 <= x.0 {
        assert(j == s.len());
        assert(s.insert(j, x) =~= s.push(x));
    } else {
        lemma_insert_at(s.drop_last(), x, j);
        assert(s.drop_last().insert(j, x).push(s.last()) =~= s.insert(j, x));
    }
}

/// Sorts `v` by offset, stably, in place.
pub fn sort_fragments(v: &mut Vec<DiffRenderFragment>)
    ensures
        frags_view(final(v)@) == sort_by_offset(frags_view(old(v)@)),
{
    let mut items: Vec<DiffRenderFragment> = Vec::new();
    std::mem::swap(v, &mut items);
    let ghost input = frags_view(items@);
    let mut i: usize = 0;
    while i < items.len()
        invariant
            input == frags_view(items@),
            i <= items@.len(),
            frags_view(v@) == sort_by_offset(input.take(i as int)),
        decreases items@.len() - i,
    {
        let x = items[i].duplicate();
        let mut j: usize = v.len();
        while j > 0 && v[j - 1].0 > x.0
            invariant
                j <= v@.len(),
                forall|k: int| j <= k < v@.len() ==> v@[k].0 > x.0,
            decreases j,
        {
            j = j - 1;
        }
        let ghost before = frags_view(v@);
        proof {
            assert forall|k: int| j <= k < before.len() implies before[k].0 > x@.0 by {
                assert(before[k] == v@[k]@);
            }
            if j > 0 {
                assert(before[j - 1] == v@[j - 1]@);
            }
            lemma_insert_at(before, x@, j as int);
            assert(input.take(i + 1).drop_last() =~= input.take(i as int));
            assert(input.take(i + 1).last() == x@);
        }
        v.insert(j, x);
        proof {
            assert(frags_view(v@) =~= before.insert(j as int, x@));
        }
        i = i + 1;
    }
    proof {
        assert(input.take(i as int) =~= input);
    }
}

// ----- weaving text between instructions -----
/// The fragments that replaying the ordered instructions `evs` over the UTF-8 text
/// `bytes` gives, from byte `pos` on: before each instruction past `pos`, the text up to
/// it; after the last, the rest of the text.
pub open spec fn weave(bytes: Seq<u8>, evs: Seq<FragmentView>, pos: int) -> Seq<FragmentView>
    decreases evs.len(),
{
    if evs.len() == 0 {
        if pos < bytes.len() {
            seq![(pos, CommandView::Text(decode_utf8(bytes.subrange(pos, bytes.len() as int))))]
        } else {
            Seq::empty()
        }
    } else {
        let e = evs[0];
        if e.0 > pos {
            seq![(pos, CommandView::Text(decode_utf8(bytes.subrange(pos, e.0)))), e] + weave(
                bytes,
                evs.drop_first(),
                e.0,
            )
        } else {
            seq![e] + weave(bytes, evs.drop_first(), pos)
        }
    }
}

/// Every instruction lies within the text, on a character boundary.
pub open spec fn offsets_in_text(bytes: Seq<u8>, evs: Seq<FragmentView>) -> bool {
    forall|i: int|
        0 <= i < evs.len() ==> 0 <= #[trigger] evs[i].0 <= bytes.len() && is_char_boundary(
            bytes,
            evs[i].0,
        )
}

/// No instruction is a run of text.
pub open spec fn no_text(evs: Seq<FragmentView>) -> bool {
    forall|i: int| 0 <= i < evs.len() ==> !(#[trigger] evs[i].1 is Text)
}

/// The fragment lies within the text `bytes`, on a character boundary.
pub open spec fn in_text(bytes: Seq<u8>, f: FragmentView) -> bool {
    0 <= f.0 <= bytes.len() && is_char_boundary(bytes, f.0)
}

/// Every element of `s` satisfies `p`.
pub open spec fn all_satisfy(s: Seq<FragmentView>, p: spec_fn(FragmentView) -> bool) -> bool {
    forall|i: int| 0 <= i < s.len() ==> p(#[trigger] s[i])
}

proof fn lemma_insert_keeps(s: Seq<FragmentView>, x: FragmentView, p: spec_fn(FragmentView) -> bool)
    requires
        all_satisfy(s, p),
        p(x),
    ensures
        all_satisfy(insert_by_offset(s, x), p),
    decreases s.len(),
{
    if s.len() > 0 && !(s.last().0 <= x.0) {
        assert(all_satisfy(s.drop_last(), p)) by {
            assert forall|i: int| 0 <= i < s.drop_last().len() implies p(#[trigger] s.drop_last()[i]) by {
                assert(s.drop_last()[i] == s[i]);
            }
        }
        lemma_insert_keeps(s.drop_last(), x, p);
        let t = insert_by_offset(s.drop_last(), x);
        assert forall|i: int| 0 <= i < t.push(s.last()).len() implies p(#[trigger] t.push(s.last())[i]) by {
            if i < t.len() {
                assert(t.push(s.last())[i] == t[i]);
            } else {
                assert(s.last() == s[s.len() - 1]);
            }
        }
    } else if s.len() > 0 {
        assert forall|i: int| 0 <= i < s.push(x).len() implies p(#[trigger] s.push(x)[i]) by {
            if i < s.len() {
                assert(s.push(x)[i] == s[i]);
            }
        }
    } else {
        assert(seq![x][0] == x);
    }
}

/// Ordering by offset keeps every instruction, so a property of each instruction still
/// holds of each after ordering.
pub proof fn lemma_sort_keeps(s: Seq<FragmentView>, p: spec_fn(FragmentView) -> bool)
    requires
        all_satisfy(s, p),
    ensures
        all_satisfy(sort_by_offset(s), p),
    decreases s.len(),
{
    if s.len() > 0 {
        assert(all_satisfy(s.drop_last(), p)) by {
            assert forall|i: int| 0 <= i < s.drop_last().len() implies p(#[trigger] s.drop_last()[i]) by {
                assert(s.drop_last()[i] == s[i]);
            }
        }
        lemma_sort_keeps(s.drop_last(), p);
        assert(s.last() == s[s.len() - 1]);
        lemma_insert_keeps(sort_by_offset(s.drop_last()), s.last(), p);
    }
}

proof fn lemma_sort_in_text(bytes: Seq<u8>, s: Seq<FragmentView>)
    requires
        offsets_in_text(bytes, s),
    ensures
        offsets_in_text(bytes, sort_by_offset(s)),
{
    let p = |f: FragmentView| in_text(bytes, f);
    assert(all_satisfy(s, p));
    lemma_sort_keeps(s, p);
    let t = sort_by_offset(s);
    assert forall|i: int| 0 <= i < t.len() implies 0 <= #[trigger] t[i].0 <= bytes.len()
        && is_char_boundary(bytes, t[i].0) by {
        assert(p(t[i]));
    }
}

/// The bytes of the text fragments of `frags`, in order.
pub open spec fn text_bytes(frags: Seq<FragmentView>) -> Seq<u8>
    decreases frags.len(),
{
    if frags.len() == 0 {
        Seq::empty()
    } else {
        let here = match frags[0].1 {
            CommandView::Text(c) => encode_utf8(c),
            _ => Seq::empty(),
        };
        here + text_bytes(frags.drop_first())
    }
}

proof fn lemma_text_bytes_single(x: FragmentView)
    ensures
        text_bytes(seq![x]) == match x.1 {
            CommandView::Text(c) => encode_utf8(c),
            _ => Seq::empty(),
        },
{
    assert(seq![x].drop_first() =~= Seq::<FragmentView>::empty());
    assert(text_bytes(Seq::<FragmentView>::empty()) =~= Seq::<u8>::empty());
    assert(seq![x][0] == x);
    let here = match x.1 {
        CommandView::Text(c) => encode_utf8(c),
        _ => Seq::<u8>::empty(),
    };
    assert(here + Seq::<u8>::empty() =~= here);
}

proof fn lemma_text_bytes_append(a: Seq<FragmentView>, b: Seq<FragmentView>)
    ensures
        text_bytes(a + b) == text_bytes(a) + text_bytes(b),
    decreases a.len(),
{
    if a.len() == 0 {
        assert(a + b =~= b);
        assert(text_bytes(a) + text_bytes(b) =~= text_bytes(b));
    } else {
        lemma_text_bytes_append(a.drop_first(), b);
        assert((a + b).drop_first() =~= a.drop_first() + b);
        assert((a + b)[0] == a[0]);
        let here = match a[0].1 {
            CommandView::Text(c) => encode_utf8(c),
            _ => Seq::empty(),
        };
        assert(here + (text_bytes(a.drop_first()) + text_bytes(b)) =~= (here + text_bytes(
            a.drop_first(),
        )) + text_bytes(b));
    }
}

proof fn lemma_weave_replays(bytes: Seq<u8>, evs: Seq<FragmentView>, pos: int)
    requires
        valid_utf8(bytes),
        0 <= pos <= bytes.len(),
        is_char_boundary(bytes, pos),
        offsets_in_text(bytes, evs),
        no_text(evs),
    ensures
        text_bytes(weave(bytes, evs, pos)) == bytes.subrange(pos, bytes.len() as int),
    decreases evs.len(),
{
    broadcast use group_utf8_lib;

    let rest = bytes.subrange(pos, bytes.len() as int);
    valid_utf8_split(bytes, pos);
    if evs.len() == 0 {
        if pos < bytes.len() {
            let x = (pos, CommandView::Text(decode_utf8(rest)));
            decode_utf8_encode_utf8(rest);
            lemma_text_bytes_single(x);
        } else {
            assert(rest =~= Seq::<u8>::empty());
        }
    } else {
        let e = evs[0];
        let tail = evs.drop_first();
        assert(offsets_in_text(bytes, tail)) by {
            assert forall|i: int| 0 <= i < tail.len() implies 0 <= #[trigger] tail[i].0 <= bytes.len()
                && is_char_boundary(bytes, tail[i].0) by {
                assert(tail[i] == evs[i + 1]);
            }
        }
        assert(no_text(tail)) by {
            assert forall|i: int| 0 <= i < tail.len() implies !(#[trigger] tail[i].1 is Text) by {
                assert(tail[i] == evs[i + 1]);
            }
        }
        assert(!(evs[0].1 is Text));
        assert(0 <= evs[0].0 <= bytes.len() && is_char_boundary(bytes, evs[0].0));
        lemma_text_bytes_single(e);
        if e.0 > pos {
            lemma_weave_replays(bytes, tail, e.0);
            let seg = bytes.subrange(pos, e.0);
            lemma_boundary_of_rest(bytes, pos, e.0 - pos);
            valid_utf8_split(rest, e.0 - pos);
            assert(rest.subrange(0, e.0 - pos) =~= seg);
            decode_utf8_encode_utf8(seg);
            let t = (pos, CommandView::Text(decode_utf8(seg)));
            assert(seq![t, e] =~= seq![t] + seq![e]);
            lemma_text_bytes_single(t);
            lemma_text_bytes_append(seq![t], seq![e]);
            lemma_text_bytes_append(seq![t, e], weave(bytes, tail, e.0));
            assert(seg + bytes.subrange(e.0, bytes.len() as int) =~= rest);
        } else {
            lemma_weave_replays(bytes, tail, pos);
            lemma_text_bytes_append(seq![e], weave(bytes, tail, pos));
            assert(Seq::<u8>::empty() + rest =~= rest);
        }
    }
}

/// With no instructions, a non-empty text is rendered as one text fragment holding all of
/// it.
pub proof fn lemma_no_events_single_text(t: Seq<char>)
    requires
        t.len() > 0,
    ensures
        weave(encode_utf8(t), sort_by_offset(Seq::<FragmentView>::empty()), 0) == seq![
            (0int, CommandView::Text(t)),
        ],
{
    broadcast use group_utf8_lib;

    let b = encode_utf8(t);
    assert(decode_utf8(b) == t);
    if b.len() == 0 {
        assert(b =~= Seq::<u8>::empty());
        assert(decode_utf8(Seq::<u8>::empty()) =~= Seq::<char>::empty());
    }
    assert(b.subrange(0, b.len() as int) =~= b);
}

/// Whatever instructions are woven in, at whatever offsets within the text (the start and
/// the end included, several at one offset), the text fragments of the result hold every
/// byte of the text once, in order.
pub proof fn lemma_cleanup_replays_text(t: Seq<char>, evs: Seq<FragmentView>)
    requires
        offsets_in_text(encode_utf8(t), evs),
        no_text(evs),
    ensures
        text_bytes(weave(encode_utf8(t), sort_by_offset(evs), 0)) == encode_utf8(t),
{
    broadcast use group_utf8_lib;

    let b = encode_utf8(t);
    lemma_sort_in_text(b, evs);
    let p = |f: FragmentView| !(f.1 is Text);
    assert(all_satisfy(evs, p));
    lemma_sort_keeps(evs, p);
    let s = sort_by_offset(evs);
    assert forall|i: int| 0 <= i < s.len() implies !(#[trigger] s[i].1 is Text) by {
        assert(p(s[i]));
    }
    is_char_boundary_start_end_of_seq(b);
    lemma_weave_replays(b, s, 0);
    assert(b.subrange(0, b.len() as int) =~= b);
}

proof fn lemma_boundary_of_rest(b: Seq<u8>, pos: int, k: int)
    requires
        valid_utf8(b),
        0 <= pos,
        0 <= k,
        pos + k <= b.len(),
        is_char_boundary(b, pos),
        is_char_boundary(b, pos + k),
    ensures
        valid_utf8(b.subrange(pos, b.len() as int)),
        is_char_boundary(b.subrange(pos, b.len() as int), k),
{
    broadcast use group_utf8_lib;

    let rest = b.subrange(pos, b.len() as int);
    valid_utf8_split(b, pos);
    if k < rest.len() {
        is_char_boundary_iff_not_is_continuation_byte(rest, k);
        is_char_boundary_iff_not_is_continuation_byte(b, pos + k);
        assert(rest[k] == b[pos + k]);
    } else {
        is_char_boundary_start_end_of_seq(rest);
    }
}

/// Weaves the text `src` between the instructions `raw_commands`, after ordering them
/// by offset (stably, in place): the fragments replay `src` exactly, with every
/// instruction at its offset.
pub fn cleanup_commands(src: &str, raw_commands: &mut Vec<DiffRenderFragment>) -> (r: Vec<
    DiffRenderFragment,
>)
    requires
        offsets_in_text(src.spec_bytes(), frags_view(old(raw_commands)@)),
    ensures
        frags_view(final(raw_commands)@) == sort_by_offset(frags_view(old(raw_commands)@)),
        frags_view(r@) == weave(src.spec_bytes(), sort_by_offset(frags_view(old(raw_commands)@)), 0),
{
    broadcast use group_utf8_lib;

    let ghost bytes = src.spec_bytes();
    sort_fragments(raw_commands);
    let ghost evs = frags_view(raw_commands@);
    proof {
        lemma_sort_in_text(bytes, frags_view(old(raw_commands)@));
        assert(valid_utf8(encode_utf8(src@)));
    }
    let mut out: Vec<DiffRenderFragment> = Vec::new();
    let size = src.as_bytes().len();
    let mut pos: usize = 0;
    let mut rest: &str = src;
    let mut i: usize = 0;
    proof {
        assert(bytes.subrange(0, bytes.len() as int) =~= bytes);
        assert(evs.skip(0) =~= evs);
        assert(frags_view(out@) + weave(bytes, evs, 0) =~= weave(bytes, evs, 0));
    }
    while i < raw_commands.len()
        invariant
            bytes == src.spec_bytes(),
            valid_utf8(bytes),
            size == bytes.len(),
            evs == frags_view(raw_commands@),
            offsets_in_text(bytes, evs),
            i <= evs.len(),
            pos <= size,
            is_char_boundary(bytes, pos as int),
            rest.spec_bytes() == bytes.subrange(pos as int, bytes.len() as int),
            frags_view(out@) + weave(bytes, evs.skip(i as int), pos as int) == weave(bytes, evs, 0),
        decreases evs.len() - i,
    {
        let f = &raw_commands[i];
        let ghost e = evs[i as int];
        let ghost tail = evs.skip(i as int);
        proof {
            assert(tail[0] == e);
            assert(tail.drop_first() =~= evs.skip(i + 1));
            assert(e == f@);
        }
        let ghost before = frags_view(out@);
        let ghost pos_before = pos as int;
        if f.0 > pos {
            proof {
                lemma_boundary_of_rest(bytes, pos as int, f.0 - pos);
            }
            let (seg, after) = rest.split_at(f.0 - pos);
            let text = DiffRenderFragment(pos, DiffRenderCommand::Text(seg.to_owned()));
            proof {
                assert(seg.spec_bytes() =~= bytes.subrange(pos as int, f.0 as int));
                assert(after.spec_bytes() =~= bytes.subrange(f.0 as int, bytes.len() as int));
                encode_utf8_decode_utf8(seg@);
                assert(text@ == (pos as int, CommandView::Text(decode_utf8(bytes.subrange(pos as int, f.0 as int)))));
            }
            out.push(text);
            out.push(f.duplicate());
            proof {
                assert(frags_view(out@) =~= before + seq![text@, e]);
            }
            rest = after;
            pos = f.0;
        } else {
            out.push(f.duplicate());
            proof {
                assert(frags_view(out@) =~= before + seq![e]);
            }
        }
        proof {
            assert(frags_view(out@) + weave(bytes, evs.skip(i + 1), pos as int) =~= before + weave(
                bytes,
                tail,
                pos_before,
            ));
        }
        i = i + 1;
    }
    let ghost before = frags_view(out@);
    if pos < size {
        let text = DiffRenderFragment(pos, DiffRenderCommand::Text(rest.to_owned()));
        out.push(text);
        proof {
            assert(frags_view(out@) =~= before + seq![text@]);
        }
    }
    proof {
        assert(evs.skip(i as int) =~= Seq::<FragmentView>::empty());
    }
    out
}

} // verus!

verus! {

/// Instructions that can be woven into the text `bytes`: each within it, none a text run.
pub open spec fn renderable(bytes: Seq<u8>, evs: Seq<FragmentView>) -> bool {
    offsets_in_text(bytes, evs) && no_text(evs)
}

pub proof fn lemma_renderable_concat(bytes: Seq<u8>, a: Seq<FragmentView>, b: Seq<FragmentView>)
    requires
        renderable(bytes, a),
        renderable(bytes, b),
    ensures
        renderable(bytes, a + b),
{
    assert forall|i: int| 0 <= i < (a + b).len() implies 0 <= #[trigger] (a + b)[i].0 <= bytes.len()
        && is_char_boundary(bytes, (a + b)[i].0) && !((a + b)[i].1 is Text) by {
        if i < a.len() {
            assert((a + b)[i] == a[i]);
        } else {
            assert((a + b)[i] == b[i - a.len()]);
        }
    }
}

} // verus!
