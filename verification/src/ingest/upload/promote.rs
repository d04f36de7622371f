//! What is recorded of a push whose images were written.

use vstd::prelude::*;
use vstd::slice::slice_subrange;

use crate::error::Error;
use crate::ingest::append::model::{NewCommit, NewObject};
use crate::ingest::graph::{copy_ids, runs, ObjectRefs};
use crate::ingest::staging::encodings::{staged, StagedEncodings, StagedObjectLocation};
use crate::ingest::upload::choice::staged_of;
use crate::ingest::upload::layout::{EntryView, PlannedImage};
use crate::ingest::upload::pump::TrailerEntry;
use crate::model::PackImageLocation;
use crate::object::{Kind, ObjectId};
use crate::objects::location::SegmentLocation;
use crate::ordmap::{held, keyed, lemma_keyed_all, lemma_keyed_next, OrdMap, OrdSet};

verus! {

/// Where a commit's image ended up.
#[derive(Clone, Copy, Debug, PartialEq, Eq, Structural)]
pub struct PromotedCommit {
    /// Header and body of the commit's own entry.
    pub entry_len: u64,
    /// Where in the image the blobs start.
    pub blob_offset: u64,
    pub segment: SegmentLocation,
}

/// An image that was written: the commit it belongs to, its trailer, and where
/// it landed.
#[derive(Debug)]
pub struct PromotedImage {
    pub commit_oid: ObjectId,
    pub trailer: Vec<TrailerEntry>,
    /// Where in the image the blobs start.
    pub blob_offset: u64,
    pub segment: SegmentLocation,
}

/// What is recorded of an object.
#[verifier::ext_equal]
pub struct ObjectView {
    pub oid: ObjectId,
    pub kind: Kind,
    pub locations: Seq<PackImageLocation>,
    pub children: Seq<ObjectId>,
}

/// What is recorded of an object.
pub open spec fn object_view(object: NewObject) -> ObjectView {
    ObjectView {
        oid: object.oid,
        kind: object.kind,
        locations: object.locations@,
        children: object.children@,
    }
}

/// What is recorded of each object.
pub open spec fn object_views(objects: Map<ObjectId, NewObject>) -> Map<ObjectId, ObjectView> {
    objects.map_values(|object: NewObject| object_view(object))
}

/// What the layout chose for an entry of a pack to delta against.
pub open spec fn base_under(
    bases: Option<Map<ObjectId, Option<ObjectId>>>,
    sha: ObjectId,
) -> Option<ObjectId> {
    match bases {
        Some(bases) if bases.contains_key(sha) => bases[sha],
        _ => None,
    }
}

/// A tree's own entries, where the push has the tree.
pub open spec fn children_at(
    kind: Kind,
    sha: ObjectId,
    refs: Map<ObjectId, ObjectRefs>,
) -> Seq<ObjectId> {
    if kind == Kind::Tree && refs.contains_key(sha) && refs[sha] is Tree {
        refs[sha].named()
    } else {
        Seq::empty()
    }
}

/// The place that an entry gives its object.
pub open spec fn place_in(
    entry: TrailerEntry,
    pack_sha: ObjectId,
    bases: Option<Map<ObjectId, Option<ObjectId>>>,
) -> PackImageLocation {
    PackImageLocation {
        pack_sha,
        offset: entry.offset,
        entry_len: entry.entry_len,
        base: base_under(bases, entry.sha),
    }
}

/// What is recorded once an entry is: its object, if it is met for the first
/// time, and one place more.
pub open spec fn with_entry(
    objects: Map<ObjectId, ObjectView>,
    entry: TrailerEntry,
    pack_sha: ObjectId,
    bases: Option<Map<ObjectId, Option<ObjectId>>>,
    refs: Map<ObjectId, ObjectRefs>,
) -> Map<ObjectId, ObjectView> {
    let known = if objects.contains_key(entry.sha) {
        objects[entry.sha]
    } else {
        ObjectView {
            oid: entry.sha,
            kind: entry.kind,
            locations: Seq::empty(),
            children: children_at(entry.kind, entry.sha, refs),
        }
    };
    objects.insert(
        entry.sha,
        ObjectView {
            locations: known.locations.push(place_in(entry, pack_sha, bases)),
            ..known
        },
    )
}

/// What is recorded once a run of entries is.
pub open spec fn with_entries(
    objects: Map<ObjectId, ObjectView>,
    entries: Seq<TrailerEntry>,
    pack_sha: ObjectId,
    bases: Option<Map<ObjectId, Option<ObjectId>>>,
    refs: Map<ObjectId, ObjectRefs>,
) -> Map<ObjectId, ObjectView>
    decreases entries.len(),
{
    if entries.len() == 0 {
        objects
    } else {
        with_entry(
            with_entries(objects, entries.drop_last(), pack_sha, bases, refs),
            entries.last(),
            pack_sha,
            bases,
            refs,
        )
    }
}

/// What a map of bases holds, if there is one.
pub open spec fn bases_in(bases: Option<&OrdMap<ObjectId, Option<ObjectId>>>) -> Option<
    Map<ObjectId, Option<ObjectId>>,
> {
    match bases {
        Some(bases) => Some(bases@),
        None => None,
    }
}

/// Record the trees and blobs of a commit's pack. An object that two packs hold
/// gets a place in each.
pub fn record_object_entries_absolute(
    new_objects: &mut OrdMap<ObjectId, NewObject>,
    pack_sha: ObjectId,
    entries: &[TrailerEntry],
    bases: Option<&OrdMap<ObjectId, Option<ObjectId>>>,
    object_refs: &OrdMap<ObjectId, ObjectRefs>,
)
    ensures
        object_views(final(new_objects)@) == with_entries(
            object_views(old(new_objects)@),
            entries@,
            pack_sha,
            bases_in(bases),
            object_refs@,
        ),
{
    let ghost before = object_views(new_objects@);
    let ghost under = bases_in(bases);
    let ghost refs = object_refs@;
    let mut i: usize = 0;
    while i < entries.len()
        invariant
            i <= entries@.len(),
            under == bases_in(bases),
            refs == object_refs@,
            object_views(new_objects@) == with_entries(
                before,
                entries@.take(i as int),
                pack_sha,
                under,
                refs,
            ),
        decreases entries@.len() - i,
    {
        let entry = entries[i];
        let ghost so_far = object_views(new_objects@);
        assert(entries@.take(i as int + 1).drop_last() =~= entries@.take(i as int));
        let mut object = match new_objects.remove(&entry.sha) {
            Some(object) => object,
            None => {
                let children = match object_refs.get(&entry.sha) {
                    Some(refs) => match (entry.kind, refs) {
                        (Kind::Tree, ObjectRefs::Tree(_)) => refs.deps(),
                        _ => Vec::new(),
                    },
                    None => Vec::new(),
                };
                assert(children@ =~= children_at(entry.kind, entry.sha, refs));
                NewObject { oid: entry.sha, kind: entry.kind, locations: Vec::new(), children }
            },
        };
        let base = match bases {
            Some(bases) => match bases.get(&entry.sha) {
                Some(base) => *base,
                None => None,
            },
            None => None,
        };
        let ghost known = object_view(object);
        object.locations.push(
            PackImageLocation {
                pack_sha,
                offset: entry.offset,
                entry_len: entry.entry_len,
                base,
            },
        );
        let _ = new_objects.insert(entry.sha, object);
        proof {
            assert(object_view(object) =~= ObjectView {
                locations: known.locations.push(place_in(entry, pack_sha, under)),
                ..known
            });
            assert(object_views(new_objects@) =~= with_entry(so_far, entry, pack_sha, under, refs));
        }
        i += 1;
    }
    assert(entries@.take(i as int) =~= entries@);
}

/// The bases that the layout chose for an image's entries.
pub open spec fn entry_bases(entries: Seq<EntryView>) -> Map<ObjectId, Option<ObjectId>>
    decreases entries.len(),
{
    if entries.len() == 0 {
        Map::empty()
    } else {
        entry_bases(entries.drop_last()).insert(entries.last().oid, entries.last().base)
    }
}

/// The bases that the layout chose for each commit's image.
pub open spec fn image_bases(images: Seq<PlannedImage>) -> Map<
    ObjectId,
    Map<ObjectId, Option<ObjectId>>,
>
    decreases images.len(),
{
    if images.len() == 0 {
        Map::empty()
    } else {
        image_bases(images.drop_last()).insert(
            images.last().commit_oid,
            entry_bases(images.last()@.entries),
        )
    }
}

/// Maps of bases as they are held.
pub open spec fn bases_held(
    bases: Map<ObjectId, OrdMap<ObjectId, Option<ObjectId>>>,
) -> Map<ObjectId, Map<ObjectId, Option<ObjectId>>> {
    bases.map_values(|bases: OrdMap<ObjectId, Option<ObjectId>>| bases@)
}

/// What each entry deltas against, which a trailer does not say.
pub fn bases_of(plan: &[PlannedImage]) -> (bases: OrdMap<
    ObjectId,
    OrdMap<ObjectId, Option<ObjectId>>,
>)
    ensures
        bases_held(bases@) == image_bases(plan@),
{
    let mut bases: OrdMap<ObjectId, OrdMap<ObjectId, Option<ObjectId>>> = OrdMap::new();
    let mut i: usize = 0;
    assert(bases_held(bases@) =~= Map::empty());
    while i < plan.len()
        invariant
            i <= plan@.len(),
            bases_held(bases@) == image_bases(plan@.take(i as int)),
        decreases plan@.len() - i,
    {
        let ghost before = bases@;
        let ghost entries = plan@[i as int]@.entries;
        let image = &plan[i];
        let mut under: OrdMap<ObjectId, Option<ObjectId>> = OrdMap::new();
        let mut k: usize = 0;
        while k < image.entries.len()
            invariant
                k <= image.entries@.len(),
                entries == image@.entries,
                under@ == entry_bases(entries.take(k as int)),
            decreases image.entries@.len() - k,
        {
            assert(entries.take(k as int + 1).drop_last() =~= entries.take(k as int));
            let _ = under.insert(image.entries[k].oid, image.entries[k].base);
            k += 1;
        }
        assert(entries.take(k as int) =~= entries);
        let _ = bases.insert(image.commit_oid, under);
        proof {
            assert(plan@.take(i as int + 1).drop_last() =~= plan@.take(i as int));
            assert(bases_held(bases@) =~= bases_held(before).insert(
                image.commit_oid,
                entry_bases(entries),
            ));
        }
        i += 1;
    }
    assert(plan@.take(i as int) =~= plan@);
    bases
}

/// What a push's images come to: where each commit's image is, and what is
/// recorded of every other object.
#[verifier::ext_equal]
pub struct Promoted {
    pub commits: Map<ObjectId, PromotedCommit>,
    pub objects: Map<ObjectId, ObjectView>,
}

/// What a run of images comes to. A commit is the first entry of its pack, and
/// the rest are its trees and blobs.
pub open spec fn folded(
    images: Seq<PromotedImage>,
    bases: Map<ObjectId, Map<ObjectId, Option<ObjectId>>>,
    refs: Map<ObjectId, ObjectRefs>,
) -> Result<Promoted, Error>
    decreases images.len(),
{
    if images.len() == 0 {
        Ok(Promoted { commits: Map::empty(), objects: Map::empty() })
    } else {
        let image = images.last();
        match folded(images.drop_last(), bases, refs) {
            Err(error) => Err(error),
            Ok(before) => if image.trailer@.len() == 0 {
                Err(Error::PackEmpty)
            } else {
                Ok(
                    Promoted {
                        commits: before.commits.insert(
                            image.commit_oid,
                            PromotedCommit {
                                entry_len: image.trailer@[0].entry_len,
                                blob_offset: image.blob_offset,
                                segment: image.segment,
                            },
                        ),
                        objects: with_entries(
                            before.objects,
                            image.trailer@.skip(1),
                            image.commit_oid,
                            bases_for(bases, image.commit_oid),
                            refs,
                        ),
                    },
                )
            },
        }
    }
}

/// The bases that the layout chose for one commit's image.
pub open spec fn bases_for(
    bases: Map<ObjectId, Map<ObjectId, Option<ObjectId>>>,
    commit: ObjectId,
) -> Option<Map<ObjectId, Option<ObjectId>>> {
    if bases.contains_key(commit) {
        Some(bases[commit])
    } else {
        None
    }
}

proof fn lemma_folded_refused(
    images: Seq<PromotedImage>,
    bases: Map<ObjectId, Map<ObjectId, Option<ObjectId>>>,
    refs: Map<ObjectId, ObjectRefs>,
    n: int,
    error: Error,
)
    requires
        0 <= n <= images.len(),
        folded(images.take(n), bases, refs) == Err::<Promoted, Error>(error),
    ensures
        folded(images, bases, refs) == Err::<Promoted, Error>(error),
    decreases images.len() - n,
{
    if n < images.len() {
        assert(images.take(n + 1).drop_last() =~= images.take(n));
        lemma_folded_refused(images, bases, refs, n + 1, error);
    } else {
        assert(images.take(n) =~= images);
    }
}

/// Put together what is recorded of a push's images.
pub fn fold_images(
    images: &[PromotedImage],
    bases: &OrdMap<ObjectId, OrdMap<ObjectId, Option<ObjectId>>>,
    object_refs: &OrdMap<ObjectId, ObjectRefs>,
) -> (r: Result<(OrdMap<ObjectId, PromotedCommit>, OrdMap<ObjectId, NewObject>), Error>)
    ensures
        match r {
            Ok((commits, objects)) => folded(images@, bases_held(bases@), object_refs@) == Ok::<
                Promoted,
                Error,
            >(Promoted { commits: commits@, objects: object_views(objects@) }),
            Err(error) => folded(images@, bases_held(bases@), object_refs@) == Err::<
                Promoted,
                Error,
            >(error),
        },
{
    let ghost under = bases_held(bases@);
    let ghost refs = object_refs@;
    let mut commits: OrdMap<ObjectId, PromotedCommit> = OrdMap::new();
    let mut objects: OrdMap<ObjectId, NewObject> = OrdMap::new();
    let mut i: usize = 0;
    assert(object_views(objects@) =~= Map::empty());
    while i < images.len()
        invariant
            i <= images@.len(),
            under == bases_held(bases@),
            refs == object_refs@,
            folded(images@.take(i as int), under, refs) == Ok::<Promoted, Error>(
                Promoted { commits: commits@, objects: object_views(objects@) },
            ),
        decreases images@.len() - i,
    {
        let image = &images[i];
        proof {
            assert(images@.take(i as int + 1).drop_last() =~= images@.take(i as int));
            assert(images@.take(i as int + 1).last() == *image);
        }
        if image.trailer.len() == 0 {
            proof {
                lemma_folded_refused(images@, under, refs, i as int + 1, Error::PackEmpty);
            }
            return Err(Error::PackEmpty);
        }
        let _ = commits.insert(
            image.commit_oid,
            PromotedCommit {
                entry_len: image.trailer[0].entry_len,
                blob_offset: image.blob_offset,
                segment: image.segment,
            },
        );
        let rest = slice_subrange(image.trailer.as_slice(), 1, image.trailer.len());
        assert(rest@ =~= image.trailer@.skip(1));
        let chosen = bases.get(&image.commit_oid);
        assert(bases_in(chosen) == bases_for(under, image.commit_oid));
        record_object_entries_absolute(&mut objects, image.commit_oid, rest, chosen, object_refs);
        i += 1;
    }
    assert(images@.take(i as int) =~= images@);
    Ok((commits, objects))
}

/// An object has a place in every pack that holds it, and nothing that was
/// recorded of it is lost: what an entry adds comes behind what was there.
pub proof fn an_entry_only_adds(
    objects: Map<ObjectId, ObjectView>,
    entry: TrailerEntry,
    pack_sha: ObjectId,
    bases: Option<Map<ObjectId, Option<ObjectId>>>,
    refs: Map<ObjectId, ObjectRefs>,
    oid: ObjectId,
)
    ensures
        ({
            let after = with_entry(objects, entry, pack_sha, bases, refs);
            &&& after.contains_key(entry.sha)
            &&& after[entry.sha].locations.last() == place_in(entry, pack_sha, bases)
            &&& oid != entry.sha ==> after.contains_key(oid) == objects.contains_key(oid)
                && after[oid] == objects[oid]
            &&& objects.contains_key(oid) ==> {
                &&& after.contains_key(oid)
                &&& objects[oid].locations.is_prefix_of(after[oid].locations)
                &&& after[oid].kind == objects[oid].kind
                &&& after[oid].children == objects[oid].children
            }
        }),
{
    let after = with_entry(objects, entry, pack_sha, bases, refs);
    if objects.contains_key(oid) {
        assert(objects[oid].locations.is_prefix_of(after[oid].locations));
    }
}

/// Whether a commit of the push is to be recorded.
pub open spec fn is_recorded(
    refs: Map<ObjectId, ObjectRefs>,
    connected: Set<ObjectId>,
    oid: ObjectId,
) -> bool {
    connected.contains(oid) && refs.contains_key(oid) && refs[oid] is Commit
}

/// Whether that is what is recorded of a commit.
pub open spec fn is_commit_for(
    commit: NewCommit,
    refs: ObjectRefs,
    promoted: PromotedCommit,
) -> bool {
    match refs {
        ObjectRefs::Commit { root_tree, parents, committer_date } => {
            &&& commit.root_tree == root_tree
            &&& commit.parents@ == parents@
            &&& commit.committer_date == committer_date
            &&& commit.entry_len == promoted.entry_len
            &&& commit.blob_offset == promoted.blob_offset
            &&& commit.segment == promoted.segment
        },
        _ => false,
    }
}

/// What is recorded of a push's commits. A connected one that was not stored is
/// an error.
pub fn build_new_commits(
    object_refs: &OrdMap<ObjectId, ObjectRefs>,
    connected: &OrdSet<ObjectId>,
    promoted: &OrdMap<ObjectId, PromotedCommit>,
) -> (commits: Result<OrdMap<ObjectId, NewCommit>, Error>)
    ensures
        match commits {
            Ok(commits) => {
                &&& forall|oid: ObjectId| #[trigger]
                    commits@.contains_key(oid) <==> is_recorded(object_refs@, connected@, oid)
                &&& forall|oid: ObjectId| #[trigger]
                    commits@.contains_key(oid) ==> promoted@.contains_key(oid) && is_commit_for(
                        commits@[oid],
                        object_refs@[oid],
                        promoted@[oid],
                    )
            },
            Err(error) => {
                &&& error == Error::CommitNotStored
                &&& exists|oid: ObjectId| #[trigger]
                    is_recorded(object_refs@, connected@, oid) && !promoted@.contains_key(oid)
            },
        },
{
    let entries = object_refs.as_entries();
    let ghost refs = object_refs@;
    let mut commits: OrdMap<ObjectId, NewCommit> = OrdMap::new();
    let mut i: usize = 0;
    while i < entries.len()
        invariant
            i <= entries@.len(),
            refs == object_refs@,
            entries@ == object_refs.entries(),
            forall|k: int|
                0 <= k < entries@.len() ==> refs.contains_key((#[trigger] entries@[k]).0)
                    && refs[entries@[k].0] == entries@[k].1,
            forall|oid: ObjectId| #[trigger]
                commits@.contains_key(oid) <==> is_recorded(refs, connected@, oid) && keyed(
                    entries@,
                    i as int,
                    oid,
                ),
            forall|oid: ObjectId| #[trigger]
                commits@.contains_key(oid) ==> promoted@.contains_key(oid) && is_commit_for(
                    commits@[oid],
                    refs[oid],
                    promoted@[oid],
                ),
        decreases entries@.len() - i,
    {
        let oid = entries[i].0;
        proof {
            lemma_keyed_next(entries@, i as int);
            assert(refs[entries@[i as int].0] == entries@[i as int].1);
        }
        if let ObjectRefs::Commit { root_tree, parents, committer_date } = &entries[i].1 {
            if connected.contains(&oid) {
                assert(is_recorded(refs, connected@, oid));
                let promoted = match promoted.get(&oid) {
                    Some(promoted) => *promoted,
                    None => {
                        return Err(Error::CommitNotStored);
                    },
                };
                let commit = NewCommit {
                    root_tree: *root_tree,
                    parents: copy_ids(parents.as_slice()),
                    entry_len: promoted.entry_len,
                    blob_offset: promoted.blob_offset,
                    committer_date: *committer_date,
                    segment: promoted.segment,
                };
                let _ = commits.insert(oid, commit);
            }
        }
        i += 1;
    }
    proof {
        lemma_keyed_all(entries@);
        assert forall|oid: ObjectId| #[trigger] commits@.contains_key(oid) <==> is_recorded(
            object_refs@,
            connected@,
            oid,
        ) by {
            if is_recorded(refs, connected@, oid) {
                assert(held(entries@).contains_key(oid));
            }
        }
    }
    Ok(commits)
}

/// The push's tags whose content is staged, in the order of their ids, and
/// where it is.
pub open spec fn tags_of(
    entries: Seq<(ObjectId, ObjectRefs)>,
    index: Map<ObjectId, Map<Option<ObjectId>, StagedObjectLocation>>,
) -> Seq<(ObjectId, StagedObjectLocation)> {
    entries.filter(
        |entry: (ObjectId, ObjectRefs)|
            entry.1 is Tag && staged_of(index, entry.0).contains_key(None),
    ).map_values(
        |entry: (ObjectId, ObjectRefs)| (entry.0, staged_of(index, entry.0)[None]),
    )
}

/// The push's tags and where the content of each is staged. A tag is kept for
/// itself and not in a pack.
pub fn staged_tags(
    object_refs: &OrdMap<ObjectId, ObjectRefs>,
    chunk_index: &OrdMap<ObjectId, StagedEncodings>,
) -> (tags: Vec<(ObjectId, StagedObjectLocation)>)
    ensures
        tags@ == tags_of(object_refs.entries(), staged(chunk_index@)),
{
    let entries = object_refs.as_entries();
    let ghost index = staged(chunk_index@);
    let ghost keep = |entry: (ObjectId, ObjectRefs)|
        entry.1 is Tag && staged_of(index, entry.0).contains_key(None);
    let ghost with = |entry: (ObjectId, ObjectRefs)| (entry.0, staged_of(index, entry.0)[None]);
    let mut tags: Vec<(ObjectId, StagedObjectLocation)> = Vec::new();
    let mut i: usize = 0;
    assert(tags@ =~= entries@.take(0).filter(keep).map_values(with)) by {
        reveal(Seq::filter);
    }
    while i < entries.len()
        invariant
            i <= entries@.len(),
            index == staged(chunk_index@),
            keep == (|entry: (ObjectId, ObjectRefs)|
                entry.1 is Tag && staged_of(index, entry.0).contains_key(None)),
            with == (|entry: (ObjectId, ObjectRefs)|
                (entry.0, staged_of(index, entry.0)[None])),
            tags@ == entries@.take(i as int).filter(keep).map_values(with),
        decreases entries@.len() - i,
    {
        proof {
            reveal(Seq::filter);
            assert(entries@.take(i as int + 1).drop_last() =~= entries@.take(i as int));
        }
        let oid = entries[i].0;
        if let ObjectRefs::Tag(_) = &entries[i].1 {
            if let Some(encodings) = chunk_index.get(&oid) {
                if let Some(loc) = encodings.whole() {
                    tags.push((oid, loc));
                }
            }
        }
        i += 1;
        assert(tags@ =~= entries@.take(i as int).filter(keep).map_values(with));
    }
    assert(entries@.take(i as int) =~= entries@);
    tags
}

/// What is recorded of a tag: no pack holds it.
pub fn tag_object(oid: ObjectId) -> (object: NewObject)
    ensures
        object_view(object) == (ObjectView {
            oid,
            kind: Kind::Tag,
            locations: Seq::empty(),
            children: Seq::empty(),
        }),
{
    NewObject { oid, kind: Kind::Tag, locations: Vec::new(), children: Vec::new() }
}

/// The connected commits with their parents: what is put in order before it is
/// stored.
pub open spec fn connected_in(
    refs: Map<ObjectId, ObjectRefs>,
    connected: Set<ObjectId>,
) -> Map<ObjectId, Seq<ObjectId>> {
    Map::new(
        |oid: ObjectId| is_recorded(refs, connected, oid),
        |oid: ObjectId| refs[oid]->parents@,
    )
}

/// The connected commits with their parents.
pub fn connected_parents(
    object_refs: &OrdMap<ObjectId, ObjectRefs>,
    connected: &OrdSet<ObjectId>,
) -> (parents: OrdMap<ObjectId, Vec<ObjectId>>)
    ensures
        runs(parents@) == connected_in(object_refs@, connected@),
{
    let entries = object_refs.as_entries();
    let ghost refs = object_refs@;
    let mut kept: OrdMap<ObjectId, Vec<ObjectId>> = OrdMap::new();
    let mut i: usize = 0;
    while i < entries.len()
        invariant
            i <= entries@.len(),
            refs == object_refs@,
            forall|k: int|
                0 <= k < entries@.len() ==> refs.contains_key((#[trigger] entries@[k]).0)
                    && refs[entries@[k].0] == entries@[k].1,
            forall|oid: ObjectId| #[trigger]
                kept@.contains_key(oid) <==> is_recorded(refs, connected@, oid) && keyed(
                    entries@,
                    i as int,
                    oid,
                ),
            forall|oid: ObjectId| #[trigger]
                kept@.contains_key(oid) ==> kept@[oid]@ == refs[oid]->parents@,
        decreases entries@.len() - i,
    {
        let oid = entries[i].0;
        proof {
            lemma_keyed_next(entries@, i as int);
            assert(refs[entries@[i as int].0] == entries@[i as int].1);
        }
        if let ObjectRefs::Commit { parents, .. } = &entries[i].1 {
            if connected.contains(&oid) {
                let _ = kept.insert(oid, copy_ids(parents.as_slice()));
            }
        }
        i += 1;
    }
    proof {
        lemma_keyed_all(entries@);
        assert forall|oid: ObjectId| #[trigger] kept@.contains_key(oid) <==> is_recorded(
            refs,
            connected@,
            oid,
        ) by {
            if is_recorded(refs, connected@, oid) {
                assert(held(entries@).contains_key(oid));
            }
        }
        assert(runs(kept@) =~= connected_in(refs, connected@));
    }
    kept
}

} // verus!
