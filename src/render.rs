use vstd::prelude::*;
use std::sync::Arc;
use crate::frame::Frame;
use crate::subtitle::{Subtitle, SubtitleType};

verus! {

/// A subtitle bound to a frame: its id and its shared bitmap.
pub struct SubtitleWrapper {
    pub id: usize,
    pub image: Arc<Frame>,
}

/// The subtitles bound to one frame (`flap` counted from 0).
pub struct RenderData {
    pub flap: usize,
    pub major: Option<SubtitleWrapper>,
    pub minor: Option<SubtitleWrapper>,
    pub bottom_offset: usize,
    pub top_offset: usize,
}

/// Two subtitles of one type claimed the same frames; the later one, `id`,
/// replaced `previous_id` from frame `flap` (counted from 1) on.
#[derive(Clone, Copy, Debug, PartialEq, Eq, Structural)]
pub struct Conflict {
    pub subtitle_type: SubtitleType,
    pub previous_id: usize,
    pub id: usize,
    pub flap: usize,
}

/// Relies on `Arc::clone`: the new handle refers to the same bitmap.
#[verifier::external_body]
fn share_image(image: &Arc<Frame>) -> (r: Arc<Frame>)
    ensures
        r == *image,
{
    Arc::clone(image)
}

/// The slot of `rd` for subtitles of type `cat`.
pub open spec fn slot(rd: RenderData, cat: SubtitleType) -> Option<SubtitleWrapper> {
    match cat {
        SubtitleType::Major => rd.major,
        SubtitleType::Minor => rd.minor,
    }
}

/// `s` asks to be drawn in region `cat` on frame `f` (counted from 0).
pub open spec fn claims(s: Subtitle, cat: SubtitleType, f: int) -> bool {
    s.subtitle_type == cat && s.begin_flap <= f + 1 <= s.end_flap
}

/// Index of the last subtitle in `subs` that claims frame `f` for region `cat`.
pub open spec fn last_claim(subs: Seq<Subtitle>, cat: SubtitleType, f: int) -> Option<int>
    decreases subs.len(),
{
    if subs.len() == 0 {
        None
    } else if claims(subs.last(), cat, f) {
        Some(subs.len() - 1)
    } else {
        last_claim(subs.drop_last(), cat, f)
    }
}

pub open spec fn wrap(s: Subtitle) -> SubtitleWrapper {
    SubtitleWrapper { id: s.id as usize, image: s.data }
}

/// What the slot `cat` of frame `f` holds once all of `subs` has been applied
/// in order: the last claimant wins.
pub open spec fn binding_of(subs: Seq<Subtitle>, cat: SubtitleType, f: int) -> Option<SubtitleWrapper> {
    match last_claim(subs, cat, f) {
        Some(j) => Some(wrap(subs[j])),
        None => None,
    }
}

/// `table` is the binding table of `n` frames for `subs`.
pub open spec fn is_binding_table(
    table: Seq<RenderData>,
    subs: Seq<Subtitle>,
    n: int,
    top_offset: u32,
    bottom_offset: u32,
) -> bool {
    &&& table.len() == n
    &&& forall|f: int|
        0 <= f < n ==> {
            &&& (#[trigger] table[f]).flap == f
            &&& table[f].top_offset == top_offset as usize
            &&& table[f].bottom_offset == bottom_offset as usize
            &&& table[f].major == binding_of(subs, SubtitleType::Major, f)
            &&& table[f].minor == binding_of(subs, SubtitleType::Minor, f)
        }
}

/// First frame (from 0) that `s` claims.
pub open spec fn first_index(s: Subtitle) -> int {
    if s.begin_flap == 0 {
        0
    } else {
        s.begin_flap - 1
    }
}

/// End (exclusive, from 0) of the frames below `n` that `s` claims.
pub open spec fn end_index(s: Subtitle, n: int) -> int {
    if s.end_flap < n {
        s.end_flap as int
    } else {
        n
    }
}

/// Id of the subtitle that held frame `f` in the region of `subs[j]` just
/// before `subs[j]` was applied.
pub open spec fn previous_id(subs: Seq<Subtitle>, j: int, f: int) -> Option<usize> {
    match binding_of(subs.take(j), subs[j].subtitle_type, f) {
        Some(w) => Some(w.id),
        None => None,
    }
}

/// The conflict recorded when `subs[j]` is applied to frame `f`: one for
/// each run of frames taken over from the same previous subtitle.
pub open spec fn conflict_at(subs: Seq<Subtitle>, j: int, f: int) -> Option<Conflict> {
    match previous_id(subs, j, f) {
        None => None,
        Some(pid) => if f == first_index(subs[j]) || previous_id(subs, j, f - 1) != Some(pid) {
            Some(
                Conflict {
                    subtitle_type: subs[j].subtitle_type,
                    previous_id: pid,
                    id: subs[j].id as usize,
                    flap: (f + 1) as usize,
                },
            )
        } else {
            None
        },
    }
}

pub open spec fn opt_seq(c: Option<Conflict>) -> Seq<Conflict> {
    match c {
        Some(x) => seq![x],
        None => seq![],
    }
}

/// Conflicts of `subs[j]` on frames `lo..f`, in frame order.
pub open spec fn asset_conflicts(subs: Seq<Subtitle>, j: int, lo: int, f: int) -> Seq<Conflict>
    decreases f - lo,
{
    if f <= lo {
        seq![]
    } else {
        asset_conflicts(subs, j, lo, f - 1) + opt_seq(conflict_at(subs, j, f - 1))
    }
}

/// Conflicts met while applying the first `j` subtitles to `n` frames, in order.
pub open spec fn conflict_log(subs: Seq<Subtitle>, n: int, j: int) -> Seq<Conflict>
    decreases j,
{
    if j <= 0 {
        seq![]
    } else {
        conflict_log(subs, n, j - 1) + asset_conflicts(
            subs,
            j - 1,
            first_index(subs[j - 1]),
            end_index(subs[j - 1], n),
        )
    }
}

proof fn lemma_last_claim_in(subs: Seq<Subtitle>, cat: SubtitleType, f: int)
    ensures
        last_claim(subs, cat, f) matches Some(p) ==> 0 <= p < subs.len() && claims(subs[p], cat, f),
    decreases subs.len(),
{
    if subs.len() > 0 && !claims(subs.last(), cat, f) {
        lemma_last_claim_in(subs.drop_last(), cat, f);
    }
}

proof fn lemma_binding_step(subs: Seq<Subtitle>, j: int, cat: SubtitleType, f: int)
    requires
        0 <= j < subs.len(),
    ensures
        binding_of(subs.take(j + 1), cat, f) == if claims(subs[j], cat, f) {
            Some(wrap(subs[j]))
        } else {
            binding_of(subs.take(j), cat, f)
        },
{
    let t = subs.take(j + 1);
    assert(t.drop_last() =~= subs.take(j));
    assert(t.last() == subs[j]);
    lemma_last_claim_in(subs.take(j), cat, f);
    match last_claim(subs.take(j), cat, f) {
        Some(p) => {
            assert(subs.take(j)[p] == subs[p]);
            assert(t[p] == subs[p]);
        },
        None => {},
    }
}

/// Builds the binding table of `frame_count` frames: frame `f` (from 0) holds
/// in each region the last subtitle of `subtitles` whose range (from 1)
/// covers `f + 1`, or nothing. Ranges reaching past the last frame are cut
/// off. Returns the conflicts met, one per run of frames that a later
/// subtitle took over from an earlier one of the same type.
pub fn init_render_data(
    render_data: &mut Vec<RenderData>,
    subtitles: &Vec<Subtitle>,
    frame_count: usize,
    top_offset: u32,
    bottom_offset: u32,
) -> (conflicts: Vec<Conflict>)
    requires
        old(render_data)@.len() == 0,
    ensures
        is_binding_table(final(render_data)@, subtitles@, frame_count as int, top_offset, bottom_offset),
        conflicts@ == conflict_log(subtitles@, frame_count as int, subtitles@.len() as int),
{
    let ghost subs = subtitles@;
    let n = frame_count;
    render_data.reserve(n);
    let mut i: usize = 0;
    while i < n
        invariant
            i <= n,
            render_data@.len() == i,
            forall|f: int|
                0 <= f < i ==> {
                    &&& (#[trigger] render_data@[f]).flap == f
                    &&& render_data@[f].top_offset == top_offset as usize
                    &&& render_data@[f].bottom_offset == bottom_offset as usize
                    &&& render_data@[f].major.is_none()
                    &&& render_data@[f].minor.is_none()
                },
        decreases n - i,
    {
        render_data.push(
            RenderData {
                flap: i,
                major: None,
                minor: None,
                bottom_offset: bottom_offset as usize,
                top_offset: top_offset as usize,
            },
        );
        i += 1;
    }
    let mut conflicts: Vec<Conflict> = Vec::new();
    let mut j: usize = 0;
    assert forall|f: int, c: SubtitleType| 0 <= f < n implies #[trigger] slot(render_data@[f], c) == binding_of(subs.take(0), c, f) by {
        assert(subs.take(0).len() == 0);
    }
    while j < subtitles.len()
        invariant
            subs == subtitles@,
            j <= subs.len(),
            render_data@.len() == n,
            forall|f: int|
                0 <= f < n ==> {
                    &&& (#[trigger] render_data@[f]).flap == f
                    &&& render_data@[f].top_offset == top_offset as usize
                    &&& render_data@[f].bottom_offset == bottom_offset as usize
                },
            forall|f: int, c: SubtitleType| 0 <= f < n ==> #[trigger] slot(render_data@[f], c) == binding_of(subs.take(j as int), c, f),
            conflicts@ == conflict_log(subs, n as int, j as int),
        decreases subs.len() - j,
    {
        let s = &subtitles[j];
        let cat = s.subtitle_type;
        let hi: usize = if s.end_flap < n as u64 { s.end_flap as usize } else { n };
        let first: u64 = if s.begin_flap == 0 { 0 } else { s.begin_flap - 1 };
        let lo: usize = if first >= hi as u64 { hi } else { first as usize };
        let mut f: usize = lo;
        let mut before_prev: Option<usize> = None;
        while f < hi
            invariant
                subs == subtitles@,
                j < subs.len(),
                *s == subs[j as int],
                cat == s.subtitle_type,
                hi == end_index(*s, n as int),
                first_index(*s) < hi ==> lo == first_index(*s),
                first_index(*s) >= hi ==> lo == hi,
                lo <= f <= hi,
                hi <= n,
                render_data@.len() == n,
                forall|g: int|
                    0 <= g < n ==> {
                        &&& (#[trigger] render_data@[g]).flap == g
                        &&& render_data@[g].top_offset == top_offset as usize
                        &&& render_data@[g].bottom_offset == bottom_offset as usize
                    },
                forall|g: int, c: SubtitleType| 0 <= g < n ==> #[trigger] slot(render_data@[g], c) == if c == cat && lo <= g < f {
                    Some(wrap(*s))
                } else {
                    binding_of(subs.take(j as int), c, g)
                },
                f > lo ==> before_prev == previous_id(subs, j as int, f - 1),
                conflicts@ == conflict_log(subs, n as int, j as int) + asset_conflicts(subs, j as int, first_index(*s), f as int),
            decreases hi - f,
        {
            let held: Option<usize> = match cat {
                SubtitleType::Major => match &render_data[f].major {
                    Some(w) => Some(w.id),
                    None => None,
                },
                SubtitleType::Minor => match &render_data[f].minor {
                    Some(w) => Some(w.id),
                    None => None,
                },
            };
            assert(slot(render_data@[f as int], cat) == binding_of(subs.take(j as int), cat, f as int));
            assert(held == previous_id(subs, j as int, f as int));
            if let Some(pid) = held {
                let fresh = match before_prev {
                    Some(q) => f == lo || q != pid,
                    None => true,
                };
                if fresh {
                    conflicts.push(Conflict { subtitle_type: cat, previous_id: pid, id: s.id as usize, flap: f + 1 });
                }
            }
            assert(conflict_at(subs, j as int, f as int) == if held.is_some() && (f == lo || before_prev != held) {
                Some(Conflict { subtitle_type: cat, previous_id: held.unwrap(), id: s.id as usize, flap: (f + 1) as usize })
            } else {
                None
            });
            let w = SubtitleWrapper { id: s.id as usize, image: share_image(&s.data) };
            let ghost before = render_data@;
            match cat {
                SubtitleType::Major => {
                    render_data[f].major = Some(w);
                },
                SubtitleType::Minor => {
                    render_data[f].minor = Some(w);
                },
            }
            assert forall|g: int| 0 <= g < n && g != f implies #[trigger] render_data@[g] == before[g] by {}
            assert(slot(render_data@[f as int], cat) == Some(wrap(*s)));
            assert(forall|c: SubtitleType| c != cat ==> #[trigger] slot(render_data@[f as int], c) == slot(before[f as int], c));
            before_prev = held;
            f += 1;
        }
        proof {
            assert forall|g: int, c: SubtitleType| 0 <= g < n implies #[trigger] slot(render_data@[g], c) == binding_of(subs.take(j + 1), c, g) by {
                lemma_binding_step(subs, j as int, c, g);
            }
        }
        j += 1;
    }
    proof {
        assert(subs.take(subs.len() as int) =~= subs);
        assert forall|f: int| 0 <= f < n implies {
            &&& (#[trigger] render_data@[f]).major == binding_of(subs, SubtitleType::Major, f)
            &&& render_data@[f].minor == binding_of(subs, SubtitleType::Minor, f)
        } by {
            assert(slot(render_data@[f], SubtitleType::Major) == binding_of(subs, SubtitleType::Major, f));
            assert(slot(render_data@[f], SubtitleType::Minor) == binding_of(subs, SubtitleType::Minor, f));
        }
    }
    conflicts
}

proof fn lemma_no_claim(subs: Seq<Subtitle>, cat: SubtitleType, f: int)
    requires
        forall|i: int| 0 <= i < subs.len() ==> !(#[trigger] subs[i].begin_flap <= f + 1 <= subs[i].end_flap),
    ensures
        last_claim(subs, cat, f) is None,
    decreases subs.len(),
{
    if subs.len() > 0 {
        assert(subs.last() == subs[subs.len() - 1]);
        let rest = subs.drop_last();
        assert forall|i: int| 0 <= i < rest.len() implies !(#[trigger] rest[i].begin_flap <= f + 1 <= rest[i].end_flap) by {
            assert(rest[i] == subs[i]);
        }
        lemma_no_claim(rest, cat, f);
    }
}

/// A frame that lies outside the range of every subtitle has neither a
/// major nor a minor subtitle in the binding table.
pub proof fn lemma_unclaimed_frame_is_empty(
    table: Seq<RenderData>,
    subs: Seq<Subtitle>,
    n: int,
    top_offset: u32,
    bottom_offset: u32,
    f: int,
)
    requires
        is_binding_table(table, subs, n, top_offset, bottom_offset),
        0 <= f < n,
        forall|i: int| 0 <= i < subs.len() ==> !(#[trigger] subs[i].begin_flap <= f + 1 <= subs[i].end_flap),
    ensures
        table[f].major is None,
        table[f].minor is None,
{
    lemma_no_claim(subs, SubtitleType::Major, f);
    lemma_no_claim(subs, SubtitleType::Minor, f);
    assert(table[f].major == binding_of(subs, SubtitleType::Major, f));
}

} // verus!
