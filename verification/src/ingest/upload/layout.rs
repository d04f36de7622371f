//! Where every image and every entry lies, to the byte.

use vstd::prelude::*;

use crate::error::Error;
use crate::ingest::progress::as_u64;
use crate::ingest::upload::choice::{Body, Chosen};
use crate::object::{Kind, ObjectId};

verus! {

/// What an entry's header says.
#[derive(Clone, Copy, Debug, PartialEq, Eq, Structural)]
pub struct HeaderFields {
    pub oid: ObjectId,
    pub kind: Kind,
    pub base: Option<ObjectId>,
    /// What the body inflates to.
    pub length: u64,
    pub compressed_len: u64,
}

/// How many bytes a chosen entry has besides its header.
pub open spec fn body_len(body: Body) -> nat {
    match body {
        Body::Wire { compressed_len, .. } => compressed_len as nat,
        Body::Staged { from, to, .. } => if from <= to {
            (to - from) as nat
        } else {
            0
        },
        Body::Indexed { entry_len, .. } => entry_len as nat,
    }
}

/// What an entry's header is to say; none for one that is passed on as it is,
/// header and all.
pub open spec fn header_fields(chosen: Chosen) -> Option<HeaderFields> {
    match chosen.body {
        Body::Wire { length, .. } => Some(
            HeaderFields {
                oid: chosen.oid,
                kind: chosen.kind,
                base: chosen.base,
                length,
                compressed_len: body_len(chosen.body) as u64,
            },
        ),
        Body::Staged { length, .. } => Some(
            HeaderFields {
                oid: chosen.oid,
                kind: chosen.kind,
                base: chosen.base,
                length,
                compressed_len: body_len(chosen.body) as u64,
            },
        ),
        Body::Indexed { .. } => None,
    }
}

/// How many bytes a chosen entry has besides its header.
pub fn measure(body: Body) -> (len: u64)
    ensures
        len == body_len(body),
{
    match body {
        Body::Wire { compressed_len, .. } => compressed_len,
        Body::Staged { from, to, .. } => if from <= to {
            as_u64(to - from)
        } else {
            0
        },
        Body::Indexed { entry_len, .. } => entry_len,
    }
}

/// What an entry's header is to say.
pub fn header_for(chosen: Chosen) -> (fields: Option<HeaderFields>)
    ensures
        fields == header_fields(chosen),
{
    let compressed_len: u64 = measure(chosen.body);
    let length: u64 = match chosen.body {
        Body::Wire { length, .. } => length,
        Body::Staged { length, .. } => length,
        Body::Indexed { .. } => {
            return None;
        },
    };
    Some(
        HeaderFields {
            oid: chosen.oid,
            kind: chosen.kind,
            base: chosen.base,
            length,
            compressed_len,
        },
    )
}

/// A chosen entry and the header that goes before it; empty for one that is
/// passed on as it is.
#[derive(Debug)]
pub struct Framed {
    pub chosen: Chosen,
    pub header: Vec<u8>,
}

/// A commit's entries, framed.
#[derive(Debug)]
pub struct FramedCommit {
    pub commit_oid: ObjectId,
    pub entries: Vec<Framed>,
    /// How many bytes follow the entries.
    pub trailer_len: u64,
}

/// One entry of an image, with its place.
#[derive(Debug)]
pub struct PlannedEntry {
    pub oid: ObjectId,
    pub kind: Kind,
    /// What the entry deltas against, so that the index can say it without
    /// reading what was written.
    pub base: Option<ObjectId>,
    /// Where in the image its header starts.
    pub offset: u64,
    /// Header and body.
    pub entry_len: u64,
    pub body: Body,
    pub header: Vec<u8>,
}

/// One image, with its place.
#[derive(Debug)]
pub struct PlannedImage {
    pub commit_oid: ObjectId,
    /// Where in its segment it starts: zero exactly where a segment does.
    pub base_offset: u64,
    pub image_len: u64,
    pub entry_count: u32,
    pub entries: Vec<PlannedEntry>,
}

/// One entry of an image, with its place.
#[verifier::ext_equal]
pub struct EntryView {
    pub oid: ObjectId,
    pub kind: Kind,
    pub base: Option<ObjectId>,
    pub offset: u64,
    pub entry_len: u64,
    pub body: Body,
    pub header: Seq<u8>,
}

impl View for PlannedEntry {
    type V = EntryView;

    open spec fn view(&self) -> EntryView {
        EntryView {
            oid: self.oid,
            kind: self.kind,
            base: self.base,
            offset: self.offset,
            entry_len: self.entry_len,
            body: self.body,
            header: self.header@,
        }
    }
}

/// One image, with its place.
#[verifier::ext_equal]
pub struct ImageView {
    pub commit_oid: ObjectId,
    pub base_offset: u64,
    pub image_len: u64,
    pub entry_count: u32,
    pub entries: Seq<EntryView>,
}

impl View for PlannedImage {
    type V = ImageView;

    open spec fn view(&self) -> ImageView {
        ImageView {
            commit_oid: self.commit_oid,
            base_offset: self.base_offset,
            image_len: self.image_len,
            entry_count: self.entry_count,
            entries: self.entries@.map_values(|entry: PlannedEntry| entry@),
        }
    }
}

/// Images with their places.
pub open spec fn image_views(images: Seq<PlannedImage>) -> Seq<ImageView> {
    images.map_values(|image: PlannedImage| image@)
}

/// How many bytes a framed entry has.
pub open spec fn framed_len(entry: Framed) -> nat {
    entry.header@.len() + body_len(entry.chosen.body)
}

/// How many bytes a run of framed entries has.
pub open spec fn framed_lens(entries: Seq<Framed>) -> nat
    decreases entries.len(),
{
    if entries.len() == 0 {
        0
    } else {
        framed_lens(entries.drop_last()) + framed_len(entries.last())
    }
}

/// Entries one behind the other, from where the header of their image ends.
pub open spec fn entries_laid(header_size: u64, entries: Seq<Framed>) -> Seq<EntryView> {
    Seq::new(
        entries.len(),
        |i: int|
            EntryView {
                oid: entries[i].chosen.oid,
                kind: entries[i].chosen.kind,
                base: entries[i].chosen.base,
                offset: (header_size + framed_lens(entries.take(i))) as u64,
                entry_len: framed_len(entries[i]) as u64,
                body: entries[i].chosen.body,
                header: entries[i].header@,
            },
    )
}

/// Where a commit's image lies, or why it cannot.
pub open spec fn image_laid(commit: FramedCommit, header_size: u64, base_offset: u64) -> Result<
    ImageView,
    Error,
> {
    let end = header_size + framed_lens(commit.entries@);
    if end > u64::MAX {
        Err(Error::PackOffset)
    } else if commit.entries@.len() > u32::MAX {
        Err(Error::PackCount)
    } else if end + commit.trailer_len > u64::MAX {
        Err(Error::PackOffset)
    } else {
        Ok(
            ImageView {
                commit_oid: commit.commit_oid,
                base_offset,
                image_len: (end + commit.trailer_len) as u64,
                entry_count: commit.entries@.len() as u32,
                entries: entries_laid(header_size, commit.entries@),
            },
        )
    }
}

proof fn lemma_lens_grow(entries: Seq<Framed>, n: int)
    requires
        0 <= n <= entries.len(),
    ensures
        framed_lens(entries.take(n)) <= framed_lens(entries),
    decreases entries.len() - n,
{
    if n < entries.len() {
        lemma_lens_grow(entries, n + 1);
        assert(entries.take(n + 1).drop_last() =~= entries.take(n));
    } else {
        assert(entries.take(n) =~= entries);
    }
}

/// Lay a commit's image out.
pub fn lay_image(commit: FramedCommit, header_size: u64, base_offset: u64) -> (image: Result<
    PlannedImage,
    Error,
>)
    ensures
        match image {
            Ok(image) => image_laid(commit, header_size, base_offset) == Ok::<ImageView, Error>(
                image@,
            ),
            Err(error) => image_laid(commit, header_size, base_offset) == Err::<ImageView, Error>(
                error,
            ),
        },
{
    let ghost all = commit.entries@;
    let ghost laid = entries_laid(header_size, all);
    let commit_oid = commit.commit_oid;
    let trailer_len: u64 = commit.trailer_len;
    let count: usize = commit.entries.len();
    let mut entries: Vec<PlannedEntry> = Vec::new();
    let mut offset: u64 = header_size;
    assert(all.take(0) =~= Seq::<Framed>::empty());
    for framed in it: commit.entries
        invariant
            it.seq() == all,
            all == commit.entries@,
            laid == entries_laid(header_size, all),
            entries@.len() == it.index(),
            offset == header_size + framed_lens(all.take(it.index() as int)),
            forall|k: int| 0 <= k < entries@.len() ==> (#[trigger] entries@[k])@ == laid[k],
    {
        let ghost at = it.index() as int;
        assert(framed == all[at]);
        proof {
            assert(all.take(at + 1).drop_last() =~= all.take(at));
            assert(all.take(at + 1).last() == all[at]);
            lemma_lens_grow(all, at + 1);
        }
        let Framed { chosen, header } = framed;
        let entry_len: u64 = match as_u64(header.len()).checked_add(measure(chosen.body)) {
            Some(entry_len) => entry_len,
            None => {
                return Err(Error::PackOffset);
            },
        };
        let next: u64 = match offset.checked_add(entry_len) {
            Some(next) => next,
            None => {
                return Err(Error::PackOffset);
            },
        };
        entries.push(
            PlannedEntry {
                oid: chosen.oid,
                kind: chosen.kind,
                base: chosen.base,
                offset,
                entry_len,
                body: chosen.body,
                header,
            },
        );
        assert(entries@[at]@ =~= laid[at]);
        offset = next;
    }
    proof {
        assert(all.take(count as int) =~= all);
        assert(entries@.map_values(|entry: PlannedEntry| entry@) =~= laid);
    }
    if count > u32::MAX as usize {
        return Err(Error::PackCount);
    }
    let image_len: u64 = match offset.checked_add(trailer_len) {
        Some(image_len) => image_len,
        None => {
            return Err(Error::PackOffset);
        },
    };
    Ok(PlannedImage { commit_oid, base_offset, image_len, entry_count: count as u32, entries })
}

/// Where a run of commits' images lie, and how full the segment at hand is.
#[verifier::ext_equal]
pub struct Layout {
    pub images: Seq<ImageView>,
    pub segment_size: u64,
}

/// Where a run of commits' images lie, or why the first that cannot lie cannot.
/// A segment that has come to `target` is left, and the next image begins
/// another.
pub open spec fn images_laid(commits: Seq<FramedCommit>, header_size: u64, target: u64) -> Result<
    Layout,
    Error,
>
    decreases commits.len(),
{
    if commits.len() == 0 {
        Ok(Layout { images: Seq::empty(), segment_size: 0 })
    } else {
        match images_laid(commits.drop_last(), header_size, target) {
            Err(error) => Err(error),
            Ok(before) => match image_laid(commits.last(), header_size, before.segment_size) {
                Err(error) => Err(error),
                Ok(image) => {
                    let size = before.segment_size + image.image_len;
                    if size > u64::MAX {
                        Err(Error::PackOffset)
                    } else {
                        Ok(
                            Layout {
                                images: before.images.push(image),
                                segment_size: if size >= target {
                                    0
                                } else {
                                    size as u64
                                },
                            },
                        )
                    }
                },
            },
        }
    }
}

proof fn lemma_stays_refused(
    commits: Seq<FramedCommit>,
    header_size: u64,
    target: u64,
    n: int,
    error: Error,
)
    requires
        0 <= n <= commits.len(),
        images_laid(commits.take(n), header_size, target) == Err::<Layout, Error>(error),
    ensures
        images_laid(commits, header_size, target) == Err::<Layout, Error>(error),
    decreases commits.len() - n,
{
    if n < commits.len() {
        assert(commits.take(n + 1).drop_last() =~= commits.take(n));
        lemma_stays_refused(commits, header_size, target, n + 1, error);
    } else {
        assert(commits.take(n) =~= commits);
    }
}

/// Lay every image and every segment out. Nothing is read or written: offsets
/// and cuts follow from sizes that are known.
pub fn plan_images(commits: Vec<FramedCommit>, header_size: u64, target: u64) -> (images: Result<
    Vec<PlannedImage>,
    Error,
>)
    ensures
        match images {
            Ok(images) => images_laid(commits@, header_size, target) matches Ok(layout)
                && image_views(images@) == layout.images,
            Err(error) => images_laid(commits@, header_size, target) == Err::<Layout, Error>(error),
        },
{
    let ghost all = commits@;
    let count: usize = commits.len();
    let mut images: Vec<PlannedImage> = Vec::new();
    let mut segment_size: u64 = 0;
    assert(all.take(0) =~= Seq::<FramedCommit>::empty());
    assert(image_views(images@) =~= Seq::<ImageView>::empty());
    for commit in it: commits
        invariant
            it.seq() == all,
            all == commits@,
            images_laid(all.take(it.index() as int), header_size, target) == Ok::<Layout, Error>(
                Layout { images: image_views(images@), segment_size },
            ),
    {
        let ghost at = it.index() as int;
        let ghost before = images@;
        proof {
            assert(all.take(at + 1).drop_last() =~= all.take(at));
            assert(all.take(at + 1).last() == commit);
        }
        let image = match lay_image(commit, header_size, segment_size) {
            Ok(image) => image,
            Err(error) => {
                proof {
                    lemma_stays_refused(all, header_size, target, at + 1, error);
                }
                return Err(error);
            },
        };
        let size: u64 = match segment_size.checked_add(image.image_len) {
            Some(size) => size,
            None => {
                proof {
                    lemma_stays_refused(all, header_size, target, at + 1, Error::PackOffset);
                }
                return Err(Error::PackOffset);
            },
        };
        images.push(image);
        assert(image_views(images@) =~= image_views(before).push(image@));
        segment_size = if size >= target {
            0
        } else {
            size
        };
    }
    assert(all.take(count as int) =~= all);
    Ok(images)
}

/// Images lie end to end: each starts where the one before ends, or, once that
/// one brought its segment to the target, at the start of the next.
pub proof fn images_lie_end_to_end(
    commits: Seq<FramedCommit>,
    header_size: u64,
    target: u64,
    i: int,
)
    requires
        images_laid(commits, header_size, target) is Ok,
        0 <= i < commits.len(),
    ensures
        ({
            let images = images_laid(commits, header_size, target)->Ok_0.images;
            &&& images.len() == commits.len()
            &&& images[0].base_offset == 0
            &&& i > 0 ==> {
                let end = images[i - 1].base_offset + images[i - 1].image_len;
                images[i].base_offset == (if end >= target {
                    0
                } else {
                    end
                })
            }
        }),
    decreases commits.len(),
{
    let layout = images_laid(commits, header_size, target)->Ok_0;
    let fewer = commits.drop_last();
    let before = images_laid(fewer, header_size, target)->Ok_0;
    lemma_layout(fewer, header_size, target);
    if fewer.len() > 0 {
        images_lie_end_to_end(
            fewer,
            header_size,
            target,
            if i < fewer.len() {
                i
            } else {
                i - 1
            },
        );
        assert(layout.images[0] == before.images[0]);
        if i < fewer.len() {
            assert(layout.images[i] == before.images[i]);
            if i > 0 {
                assert(layout.images[i - 1] == before.images[i - 1]);
            }
        } else {
            assert(layout.images[i - 1] == before.images.last());
        }
    }
}

/// How full the segment at hand is follows from its last image.
proof fn lemma_layout(commits: Seq<FramedCommit>, header_size: u64, target: u64)
    requires
        images_laid(commits, header_size, target) is Ok,
    ensures
        ({
            let layout = images_laid(commits, header_size, target)->Ok_0;
            &&& layout.images.len() == commits.len()
            &&& if commits.len() == 0 {
                layout.segment_size == 0
            } else {
                let last = layout.images.last();
                layout.segment_size == (if last.base_offset + last.image_len >= target {
                    0
                } else {
                    last.base_offset + last.image_len
                })
            }
        }),
    decreases commits.len(),
{
    if commits.len() > 0 {
        lemma_layout(commits.drop_last(), header_size, target);
    }
}

/// An image's entries lie end to end between its header and its trailer.
pub proof fn entries_lie_end_to_end(
    commit: FramedCommit,
    header_size: u64,
    base_offset: u64,
    i: int,
)
    requires
        image_laid(commit, header_size, base_offset) is Ok,
        0 <= i < commit.entries@.len(),
    ensures
        ({
            let image = image_laid(commit, header_size, base_offset)->Ok_0;
            let entry = image.entries[i];
            &&& image.entries.len() == commit.entries@.len()
            &&& image.entries[0].offset == header_size
            &&& entry.offset + entry.entry_len + (if i + 1 == commit.entries@.len() {
                commit.trailer_len as int
            } else {
                0
            }) == (if i + 1 == commit.entries@.len() {
                image.image_len
            } else {
                image.entries[i + 1].offset
            })
        }),
{
    let entries = commit.entries@;
    assert(entries.take(0) =~= Seq::<Framed>::empty());
    assert(entries.take(i + 1).drop_last() =~= entries.take(i));
    assert(entries.take(i + 1).last() == entries[i]);
    lemma_lens_grow(entries, i);
    lemma_lens_grow(entries, i + 1);
    if i + 1 == entries.len() {
        assert(entries.take(i + 1) =~= entries);
    }
}

/// A plan as one run of images per segment: every zero starts one.
pub open spec fn runs_of(plan: Seq<PlannedImage>) -> Seq<Seq<PlannedImage>>
    decreases plan.len(),
{
    if plan.len() == 0 {
        Seq::empty()
    } else {
        let before = runs_of(plan.drop_last());
        if plan.last().base_offset == 0 || before.len() == 0 {
            before.push(seq![plan.last()])
        } else {
            before.drop_last().push(before.last().push(plan.last()))
        }
    }
}

/// Runs of images as they are held.
pub open spec fn runs_in(runs: Seq<Vec<PlannedImage>>) -> Seq<Seq<PlannedImage>> {
    runs.map_values(|run: Vec<PlannedImage>| run@)
}

/// Split a plan into one run of images per segment. The runs share nothing.
pub fn split_segments(plan: Vec<PlannedImage>) -> (runs: Vec<Vec<PlannedImage>>)
    ensures
        runs_in(runs@) == runs_of(plan@),
{
    let ghost all = plan@;
    let count: usize = plan.len();
    let mut runs: Vec<Vec<PlannedImage>> = Vec::new();
    assert(all.take(0) =~= Seq::<PlannedImage>::empty());
    assert(runs_in(runs@) =~= Seq::<Seq<PlannedImage>>::empty());
    for image in it: plan
        invariant
            it.seq() == all,
            all == plan@,
            runs_in(runs@) == runs_of(all.take(it.index() as int)),
    {
        let ghost at = it.index() as int;
        let ghost before = runs@;
        proof {
            assert(all.take(at + 1).drop_last() =~= all.take(at));
            assert(all.take(at + 1).last() == image);
            assert(runs_in(before).len() == before.len());
        }
        let mut run = Vec::new();
        if image.base_offset != 0 {
            if let Some(last) = runs.pop() {
                run = last;
            }
        }
        let ghost kept = runs@;
        let ghost held = run@;
        run.push(image);
        runs.push(run);
        proof {
            if image.base_offset != 0 && before.len() > 0 {
                assert(kept =~= before.drop_last());
                assert(runs_in(before).last() == before.last()@);
                assert(runs_in(runs@) =~= runs_in(before).drop_last().push(held.push(image)));
            } else {
                assert(kept =~= before);
                assert(held.push(image) =~= seq![image]);
                assert(runs_in(runs@) =~= runs_in(before).push(seq![image]));
            }
        }
    }
    assert(all.take(count as int) =~= all);
    runs
}

/// Runs one behind the other.
pub open spec fn in_a_row(runs: Seq<Seq<PlannedImage>>) -> Seq<PlannedImage>
    decreases runs.len(),
{
    if runs.len() == 0 {
        Seq::empty()
    } else {
        in_a_row(runs.drop_last()) + runs.last()
    }
}

/// Splitting a plan regroups it and reorders nothing: the runs one behind the
/// other are the plan, and none is empty.
pub proof fn splitting_reorders_nothing(plan: Seq<PlannedImage>)
    ensures
        in_a_row(runs_of(plan)) == plan,
        forall|i: int| 0 <= i < runs_of(plan).len() ==> (#[trigger] runs_of(plan)[i]).len() > 0,
    decreases plan.len(),
{
    if plan.len() == 0 {
        assert(in_a_row(runs_of(plan)) =~= plan);
    } else {
        let fewer = plan.drop_last();
        splitting_reorders_nothing(fewer);
        let before = runs_of(fewer);
        let after = runs_of(plan);
        if plan.last().base_offset == 0 || before.len() == 0 {
            assert(after.drop_last() =~= before);
        } else {
            assert(after.drop_last() =~= before.drop_last());
            assert(in_a_row(before) == in_a_row(before.drop_last()) + before.last());
            assert(in_a_row(after) =~= in_a_row(before).push(plan.last()));
        }
        assert(plan =~= fewer.push(plan.last()));
        assert(in_a_row(after) =~= plan);
    }
}

/// A run starts where its segment does, if the plan does, and each of its other
/// images lies further in.
pub proof fn a_run_is_a_segment(plan: Seq<PlannedImage>, i: int, k: int)
    requires
        plan.len() > 0 ==> plan[0].base_offset == 0,
        0 <= i < runs_of(plan).len(),
        0 <= k < runs_of(plan)[i].len(),
    ensures
        runs_of(plan)[i][k].base_offset == 0 <==> k == 0,
    decreases plan.len(),
{
    let fewer = plan.drop_last();
    let before = runs_of(fewer);
    let after = runs_of(plan);
    splitting_reorders_nothing(fewer);
    if plan.last().base_offset == 0 || before.len() == 0 {
        if i < before.len() {
            assert(after[i] == before[i]);
            a_run_is_a_segment(fewer, i, k);
        } else {
            if before.len() == 0 && fewer.len() > 0 {
                assert(in_a_row(before) =~= Seq::<PlannedImage>::empty());
            }
        }
    } else {
        if i < before.len() - 1 {
            assert(after[i] == before[i]);
            a_run_is_a_segment(fewer, i, k);
        } else if k < before.last().len() {
            assert(after[i][k] == before.last()[k]);
            a_run_is_a_segment(fewer, before.len() - 1, k);
        }
    }
}

} // verus!
