//! Writing one segment, a step at a time: of each image its header, its
//! entries, and the trailer that says what they are.

use vstd::prelude::*;

use crate::ingest::upload::layout::{
    framed_len, framed_lens, image_laid, image_views, images_laid, runs_of, EntryView, Framed,
    FramedCommit, ImageView, PlannedEntry, PlannedImage,
};
use crate::ingest::upload::promote::PromotedImage;
use crate::ingest::upload::pump::{segment_of, trailer_entry, TrailerEntry};
use crate::object::ObjectId;
use crate::objects::location::{SegmentLocation, Ulid};

verus! {

/// What a segment asks for next.
#[derive(Clone, Copy, Debug, PartialEq, Eq, Structural)]
pub enum Todo {
    /// Give it up: another segment has failed.
    StandDown,
    /// Write the header of an image of so many entries.
    Header(u32),
    /// Write the entry at hand.
    Entry,
    /// Write the trailer of the image at hand.
    Trailer,
    /// Nothing is left to write.
    Finish,
}

/// An image that was written.
#[verifier::ext_equal]
pub struct LandedView {
    pub commit_oid: ObjectId,
    pub trailer: Seq<TrailerEntry>,
    pub blob_offset: u64,
    pub segment: SegmentLocation,
}

/// An image that was written.
pub open spec fn landed_view(image: PromotedImage) -> LandedView {
    LandedView {
        commit_oid: image.commit_oid,
        trailer: image.trailer@,
        blob_offset: image.blob_offset,
        segment: image.segment,
    }
}

/// Images that were written.
pub open spec fn landed_views(images: Seq<PromotedImage>) -> Seq<LandedView> {
    images.map_values(|image: PromotedImage| landed_view(image))
}

/// How far a segment is.
#[verifier::ext_equal]
pub struct Stand {
    pub id: Ulid,
    pub images: Seq<ImageView>,
    /// The images written so far.
    pub landed: Seq<LandedView>,
    /// Whether the header of the image at hand was written.
    pub begun: bool,
    /// The entries of the image at hand written so far.
    pub trailer: Seq<TrailerEntry>,
}

/// What a trailer says of an entry that inflates to `length` bytes.
pub open spec fn told(entry: EntryView, length: u64) -> TrailerEntry {
    TrailerEntry {
        sha: entry.oid,
        kind: entry.kind,
        length,
        offset: entry.offset,
        entry_len: entry.entry_len,
    }
}

/// Whether a trailer tells of the first entries of an image, each in its place.
pub open spec fn tells(trailer: Seq<TrailerEntry>, entries: Seq<EntryView>) -> bool {
    &&& trailer.len() <= entries.len()
    &&& forall|j: int|
        0 <= j < trailer.len() ==> (#[trigger] trailer[j]) == told(entries[j], trailer[j].length)
}

/// Whether an image was written as it was planned.
pub open spec fn landed_as(landed: LandedView, image: ImageView, id: Ulid) -> bool {
    &&& landed.commit_oid == image.commit_oid
    &&& landed.segment == (SegmentLocation {
        id,
        base_offset: image.base_offset,
        image_len: image.image_len,
    })
    &&& landed.trailer.len() == image.entries.len()
    &&& tells(landed.trailer, image.entries)
}

impl Stand {
    /// The image at hand.
    pub open spec fn image(self) -> ImageView {
        self.images[self.landed.len() as int]
    }

    /// The entry at hand.
    pub open spec fn entry(self) -> EntryView {
        self.image().entries[self.trailer.len() as int]
    }

    /// Whether what was written is what was planned, as far as it goes.
    pub open spec fn is_sound(self) -> bool {
        &&& self.landed.len() <= self.images.len()
        &&& forall|k: int|
            0 <= k < self.landed.len() ==> landed_as(
                #[trigger] self.landed[k],
                self.images[k],
                self.id,
            )
        &&& !self.begun ==> self.trailer.len() == 0
        &&& self.begun ==> self.landed.len() < self.images.len() && tells(
            self.trailer,
            self.image().entries,
        )
    }

    /// What comes next. Another segment's failure counts between two images:
    /// one that is begun is written to its end.
    pub open spec fn due(self, cancelled: bool) -> Todo {
        if self.landed.len() == self.images.len() {
            Todo::Finish
        } else if !self.begun {
            if cancelled {
                Todo::StandDown
            } else {
                Todo::Header(self.image().entry_count)
            }
        } else if self.trailer.len() < self.image().entries.len() {
            Todo::Entry
        } else {
            Todo::Trailer
        }
    }

    /// The stand once the header is written.
    pub open spec fn begin(self) -> Stand {
        Stand { begun: true, ..self }
    }

    /// The stand once the entry at hand, which inflates to `length` bytes, is
    /// written.
    pub open spec fn advance(self, length: u64) -> Stand {
        Stand { trailer: self.trailer.push(told(self.entry(), length)), ..self }
    }

    /// The stand once the trailer is written, whose image has its blobs from
    /// `blob_offset` on.
    pub open spec fn close(self, blob_offset: u64) -> Stand {
        Stand {
            landed: self.landed.push(
                LandedView {
                    commit_oid: self.image().commit_oid,
                    trailer: self.trailer,
                    blob_offset,
                    segment: SegmentLocation {
                        id: self.id,
                        base_offset: self.image().base_offset,
                        image_len: self.image().image_len,
                    },
                },
            ),
            begun: false,
            trailer: Seq::empty(),
            ..self
        }
    }
}

/// A segment that is being written.
#[derive(Debug)]
pub struct SegmentRun {
    id: Ulid,
    images: Vec<PlannedImage>,
    landed: Vec<PromotedImage>,
    begun: bool,
    trailer: Vec<TrailerEntry>,
}

impl View for SegmentRun {
    type V = Stand;

    closed spec fn view(&self) -> Stand {
        Stand {
            id: self.id,
            images: image_views(self.images@),
            landed: landed_views(self.landed@),
            begun: self.begun,
            trailer: self.trailer@,
        }
    }
}

impl SegmentRun {
    /// A segment of which nothing is written yet.
    pub fn new(images: Vec<PlannedImage>, id: Ulid) -> (run: SegmentRun)
        ensures
            run@ == (Stand {
                id,
                images: image_views(images@),
                landed: Seq::empty(),
                begun: false,
                trailer: Seq::empty(),
            }),
            run@.is_sound(),
    {
        let run = SegmentRun {
            id,
            images,
            landed: Vec::new(),
            begun: false,
            trailer: Vec::new(),
        };
        assert(run@.landed =~= Seq::<LandedView>::empty());
        run
    }

    /// What comes next, where another segment has failed or none has.
    pub fn next(&self, cancelled: bool) -> (todo: Todo)
        requires
            self@.is_sound(),
        ensures
            todo == self@.due(cancelled),
    {
        if self.landed.len() == self.images.len() {
            return Todo::Finish;
        }
        let image = &self.images[self.landed.len()];
        if !self.begun {
            if cancelled {
                Todo::StandDown
            } else {
                Todo::Header(image.entry_count)
            }
        } else if self.trailer.len() < image.entries.len() {
            Todo::Entry
        } else {
            Todo::Trailer
        }
    }

    /// The entry at hand.
    pub fn entry(&self) -> (entry: &PlannedEntry)
        requires
            self@.is_sound(),
            self@.due(false) is Entry,
        ensures
            entry@ == self@.entry(),
    {
        &self.images[self.landed.len()].entries[self.trailer.len()]
    }

    /// What the trailer is to say.
    pub fn trailer(&self) -> (trailer: &[TrailerEntry])
        ensures
            trailer@ == self@.trailer,
    {
        self.trailer.as_slice()
    }

    /// The header was written.
    pub fn begin(&mut self)
        requires
            old(self)@.is_sound(),
            old(self)@.due(false) is Header,
        ensures
            final(self)@ == old(self)@.begin(),
            final(self)@.is_sound(),
    {
        self.begun = true;
    }

    /// The entry at hand was written; it inflates to `length` bytes.
    pub fn advance(&mut self, length: u64)
        requires
            old(self)@.is_sound(),
            old(self)@.due(false) is Entry,
        ensures
            final(self)@ == old(self)@.advance(length),
            final(self)@.is_sound(),
    {
        let entry = trailer_entry(
            &self.images[self.landed.len()].entries[self.trailer.len()],
            length,
        );
        self.trailer.push(entry);
    }

    /// The trailer was written; the blobs start at `blob_offset`.
    pub fn close(&mut self, blob_offset: u64)
        requires
            old(self)@.is_sound(),
            old(self)@.due(false) is Trailer,
        ensures
            final(self)@ == old(self)@.close(blob_offset),
            final(self)@.is_sound(),
    {
        let ghost before = self@;
        let at: usize = self.landed.len();
        let segment = segment_of(&self.images[at], self.id);
        let commit_oid = self.images[at].commit_oid;
        let mut trailer: Vec<TrailerEntry> = Vec::new();
        std::mem::swap(&mut trailer, &mut self.trailer);
        let landed = PromotedImage { commit_oid, trailer, blob_offset, segment };
        self.landed.push(landed);
        self.begun = false;
        assert(self@.landed =~= before.landed.push(landed_view(landed)));
        assert(self@ =~= before.close(blob_offset));
    }

    /// What was written, image by image.
    pub fn finish(self) -> (landed: Vec<PromotedImage>)
        requires
            self@.is_sound(),
            self@.due(false) is Finish,
        ensures
            landed_views(landed@) == self@.landed,
            landed@.len() == self@.images.len(),
            forall|k: int|
                0 <= k < landed@.len() ==> landed_as(
                    landed_view(#[trigger] landed@[k]),
                    self@.images[k],
                    self@.id,
                ),
    {
        proof {
            assert forall|k: int| 0 <= k < self.landed@.len() implies landed_as(
                landed_view(#[trigger] self.landed@[k]),
                self@.images[k],
                self@.id,
            ) by {
                assert(self@.landed[k] == landed_view(self.landed@[k]));
            }
        }
        self.landed
    }
}

/// How many bytes a run of entries has.
pub open spec fn entry_lens(entries: Seq<EntryView>) -> nat
    decreases entries.len(),
{
    if entries.len() == 0 {
        0
    } else {
        entry_lens(entries.drop_last()) + entries.last().entry_len as nat
    }
}

/// How many bytes a run of images has.
pub open spec fn image_lens(images: Seq<ImageView>) -> nat
    decreases images.len(),
{
    if images.len() == 0 {
        0
    } else {
        image_lens(images.drop_last()) + images.last().image_len as nat
    }
}

/// Whether the images of a segment lie one behind the other from its start, and
/// the entries of each from where its header of `header_size` bytes ends.
pub open spec fn lie_in_a_row(images: Seq<ImageView>, header_size: u64) -> bool {
    &&& forall|k: int|
        0 <= k < images.len() ==> (#[trigger] images[k]).base_offset == image_lens(images.take(k))
    &&& forall|k: int, j: int|
        0 <= k < images.len() && 0 <= j < images[k].entries.len() ==> (
        #[trigger] images[k].entries[j]).offset == header_size + entry_lens(
            images[k].entries.take(j),
        )
}

/// How many bytes of a segment are written: the images that landed, and of the
/// one at hand its header and the entries its trailer tells of.
pub open spec fn bytes_written(stand: Stand, header_size: u64) -> nat {
    image_lens(stand.images.take(stand.landed.len() as int)) + if stand.begun {
        header_size as nat + entry_lens(stand.image().entries.take(stand.trailer.len() as int))
    } else {
        0
    }
}

/// Every step adds what it writes: a header its own bytes, an entry its own,
/// and a trailer what is left of its image.
pub proof fn a_step_adds_what_it_writes(
    stand: Stand,
    header_size: u64,
    length: u64,
    blob_offset: u64,
)
    requires
        stand.is_sound(),
    ensures
        stand.due(false) is Header ==> bytes_written(stand.begin(), header_size) == bytes_written(
            stand,
            header_size,
        ) + header_size,
        stand.due(false) is Entry ==> bytes_written(stand.advance(length), header_size)
            == bytes_written(stand, header_size) + stand.entry().entry_len,
        stand.due(false) is Trailer ==> bytes_written(stand.close(blob_offset), header_size)
            == bytes_written(stand, header_size) + stand.image().image_len - header_size
            - entry_lens(stand.image().entries),
{
    let at = stand.landed.len() as int;
    if stand.due(false) is Header {
        assert(stand.image().entries.take(0) =~= Seq::<EntryView>::empty());
    } else if stand.due(false) is Entry {
        let entries = stand.image().entries;
        let n = stand.trailer.len() as int;
        assert(entries.take(n + 1).drop_last() =~= entries.take(n));
        assert(stand.advance(length).image() == stand.image());
    } else if stand.due(false) is Trailer {
        let entries = stand.image().entries;
        assert(entries.take(entries.len() as int) =~= entries);
        assert(stand.images.take(at + 1).drop_last() =~= stand.images.take(at));
    }
}

/// Every header and every entry is written where the layout put it, which is
/// what the index will say of it.
pub proof fn everything_is_written_where_it_lies(stand: Stand, header_size: u64)
    requires
        stand.is_sound(),
        lie_in_a_row(stand.images, header_size),
    ensures
        stand.due(false) is Header ==> bytes_written(stand, header_size)
            == stand.image().base_offset,
        stand.due(false) is Entry ==> bytes_written(stand, header_size)
            == stand.image().base_offset + stand.entry().offset,
{
    if stand.due(false) is Entry {
        let k = stand.landed.len() as int;
        let j = stand.trailer.len() as int;
        assert(stand.images[k].entries[j] == stand.entry());
    }
}

proof fn lemma_entries_in_a_row(commit: FramedCommit, header_size: u64, base_offset: u64, j: int)
    requires
        image_laid(commit, header_size, base_offset) is Ok,
        0 <= j <= commit.entries@.len(),
    ensures
        ({
            let entries = image_laid(commit, header_size, base_offset)->Ok_0.entries;
            &&& entries.len() == commit.entries@.len()
            &&& entry_lens(entries.take(j)) == framed_lens(commit.entries@.take(j))
            &&& framed_lens(commit.entries@.take(j)) <= framed_lens(commit.entries@)
            &&& j < entries.len() ==> entries[j].offset == header_size + entry_lens(
                entries.take(j),
            )
        }),
    decreases j,
{
    let framed = commit.entries@;
    let entries = image_laid(commit, header_size, base_offset)->Ok_0.entries;
    lemma_take_fits(framed, j);
    if j > 0 {
        lemma_entries_in_a_row(commit, header_size, base_offset, j - 1);
        assert(entries.take(j).drop_last() =~= entries.take(j - 1));
        assert(framed.take(j).drop_last() =~= framed.take(j - 1));
        assert(framed.take(j).last() == framed[j - 1]);
        assert(entries.take(j).last() == entries[j - 1]);
        assert(framed_len(framed[j - 1]) <= u64::MAX);
    } else {
        assert(framed.take(0) =~= Seq::<Framed>::empty());
        assert(entries.take(0) =~= Seq::<EntryView>::empty());
    }
}

proof fn lemma_take_fits(framed: Seq<Framed>, j: int)
    requires
        0 <= j <= framed.len(),
    ensures
        framed_lens(framed.take(j)) <= framed_lens(framed),
    decreases framed.len() - j,
{
    if j < framed.len() {
        lemma_take_fits(framed, j + 1);
        assert(framed.take(j + 1).drop_last() =~= framed.take(j));
    } else {
        assert(framed.take(j) =~= framed);
    }
}

proof fn lemma_one_image_more(images: Seq<ImageView>, image: ImageView, header_size: u64)
    requires
        lie_in_a_row(images, header_size),
        image.base_offset == image_lens(images),
        forall|j: int|
            0 <= j < image.entries.len() ==> (#[trigger] image.entries[j]).offset == header_size
                + entry_lens(image.entries.take(j)),
    ensures
        lie_in_a_row(images.push(image), header_size),
        image_lens(images.push(image)) == image_lens(images) + image.image_len,
{
    let more = images.push(image);
    assert(more.drop_last() =~= images);
    assert forall|k: int| 0 <= k < more.len() implies (#[trigger] more[k]).base_offset
        == image_lens(more.take(k)) by {
        assert(more.take(k) =~= images.take(k));
        if k == images.len() {
            assert(images.take(k) =~= images);
        } else {
            assert(more[k] == images[k]);
        }
    }
    assert forall|k: int, j: int| 0 <= k < more.len() && 0 <= j < more[k].entries.len() implies (
    #[trigger] more[k].entries[j]).offset == header_size + entry_lens(more[k].entries.take(j)) by {
        if k < images.len() {
            assert(more[k] == images[k]);
            assert(images[k].entries[j] == more[k].entries[j]);
        } else {
            assert(image.entries[j] == more[k].entries[j]);
        }
    }
}

proof fn lemma_run_in_a_row(
    commits: Seq<FramedCommit>,
    header_size: u64,
    target: u64,
    plan: Seq<PlannedImage>,
)
    requires
        images_laid(commits, header_size, target) is Ok,
        image_views(plan) == images_laid(commits, header_size, target)->Ok_0.images,
    ensures
        forall|i: int|
            0 <= i < runs_of(plan).len() ==> lie_in_a_row(
                image_views(#[trigger] runs_of(plan)[i]),
                header_size,
            ),
        ({
            let size = images_laid(commits, header_size, target)->Ok_0.segment_size;
            &&& size > 0 ==> runs_of(plan).len() > 0 && image_lens(
                image_views(runs_of(plan).last()),
            ) == size
            &&& size == 0 && header_size > 0 && plan.len() > 0 ==> image_lens(
                image_views(runs_of(plan).last()),
            ) >= target
        }),
        header_size > 0 ==> forall|i: int|
            0 <= i < runs_of(plan).len() - 1 ==> image_lens(
                image_views(#[trigger] runs_of(plan)[i]),
            ) >= target,
        plan.len() == commits.len(),
        plan.len() > 0 ==> runs_of(plan).len() > 0,
    decreases commits.len(),
{
    let layout = images_laid(commits, header_size, target)->Ok_0;
    assert(image_views(plan).len() == plan.len());
    if commits.len() > 0 {
        let fewer = plan.drop_last();
        let before = images_laid(commits.drop_last(), header_size, target)->Ok_0;
        let image = layout.images.last();
        assert(layout.images.drop_last() =~= before.images);
        assert(image_views(fewer) =~= image_views(plan).drop_last());
        lemma_run_in_a_row(commits.drop_last(), header_size, target, fewer);
        assert(plan.last()@ == image_views(plan).last());
        assert forall|j: int| 0 <= j < image.entries.len() implies (
        #[trigger] image.entries[j]).offset == header_size + entry_lens(
            image.entries.take(j),
        ) by {
            lemma_entries_in_a_row(commits.last(), header_size, before.segment_size, j);
        }
        let runs = runs_of(fewer);
        let after = runs_of(plan);
        let none = Seq::<ImageView>::empty();
        if image.base_offset == 0 || runs.len() == 0 {
            lemma_one_image_more(none, image, header_size);
            assert(image_views(after.last()) =~= none.push(image));
        } else {
            lemma_one_image_more(image_views(runs.last()), image, header_size);
            assert(image_views(after.last()) =~= image_views(runs.last()).push(image));
        }
        assert forall|i: int| 0 <= i < after.len() implies lie_in_a_row(
            image_views(#[trigger] after[i]),
            header_size,
        ) by {
            if i < after.len() - 1 {
                assert(after[i] == runs[i]);
            }
        }
        if header_size > 0 {
            assert(image.image_len > 0);
            assert forall|i: int| 0 <= i < after.len() - 1 implies image_lens(
                image_views(#[trigger] after[i]),
            ) >= target by {
                assert(after[i] == runs[i]);
            }
        }
    }
}

/// What is planned can be written: each segment's images, and their entries, lie
/// one behind the other.
pub proof fn a_planned_run_lies_in_a_row(
    commits: Seq<FramedCommit>,
    header_size: u64,
    target: u64,
    plan: Seq<PlannedImage>,
    i: int,
)
    requires
        images_laid(commits, header_size, target) is Ok,
        image_views(plan) == images_laid(commits, header_size, target)->Ok_0.images,
        0 <= i < runs_of(plan).len(),
    ensures
        lie_in_a_row(image_views(runs_of(plan)[i]), header_size),
{
    lemma_run_in_a_row(commits, header_size, target, plan);
}

/// A segment is left only once it has come to the target, so that a push of many
/// bytes takes few: every one but the last holds at least as many.
///
/// An image has at least a header.
pub proof fn every_segment_but_the_last_is_full(
    commits: Seq<FramedCommit>,
    header_size: u64,
    target: u64,
    plan: Seq<PlannedImage>,
    i: int,
)
    requires
        images_laid(commits, header_size, target) is Ok,
        image_views(plan) == images_laid(commits, header_size, target)->Ok_0.images,
        header_size > 0,
        0 <= i < runs_of(plan).len() - 1,
    ensures
        image_lens(image_views(runs_of(plan)[i])) >= target,
{
    lemma_run_in_a_row(commits, header_size, target, plan);
}

} // verus!
