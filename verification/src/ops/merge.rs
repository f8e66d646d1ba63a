//! Detecting duplicate chart folders and resolving which folder is merged
//! into which.
//!
//! Two folders are duplicates when they hold a chart file of the same content
//! and enough of their file names agree. Each duplicate is merged into the
//! folder that was discovered before it; chains of merges are followed to
//! their end, so that every folder is moved once, to where it finally belongs.

use crate::chart_hashes::{ChartHashes, GroupModel};
use crate::lists::{
    distinct, first_where, holds_where, lemma_distinct, lemma_distinct_set,
    lemma_filter_keeps_distinct, lemma_first_where, lemma_first_where_is,
};
use crate::path::{bytes_clone, bytes_eq, lemma_views_push, views, PathModel, TreePath};
use vstd::prelude::*;

verus! {

/// The share of agreeing file names, in percent, from which two folders count
/// as duplicates unless the caller sets another.
pub const MERGE_THRESHOLD: u8 = 80;

/// Why two folders could not be compared.
#[derive(Debug, Clone, Copy, PartialEq, Eq, Structural)]
pub enum MergeError {
    /// One of the two is not a directory, or could not be listed.
    NotADirectory,
    /// Neither folder holds a file.
    NoFiles,
}

/// What a [`FolderListing`] stands for.
pub struct ListingModel {
    pub folder: PathModel,
    pub files: Option<Seq<Seq<u8>>>,
}

/// A folder with the names of the plain files directly inside it; `files` is
/// `None` where the folder is not a directory or could not be listed.
#[derive(Debug)]
pub struct FolderListing {
    pub folder: TreePath,
    pub files: Option<Vec<Vec<u8>>>,
}

impl View for FolderListing {
    type V = ListingModel;

    open spec fn view(&self) -> ListingModel {
        ListingModel {
            folder: self.folder@,
            files: match self.files {
                Some(names) => Some(views(names@)),
                None => None,
            },
        }
    }
}

/// The threshold in force: the caller's, or [`MERGE_THRESHOLD`].
pub open spec fn threshold_of(threshold: Option<u8>) -> int {
    match threshold {
        Some(t) => t as int,
        None => MERGE_THRESHOLD as int,
    }
}

/// How far two sets of file names agree, in percent: every name counts once
/// for each set that holds it, and a name counts as agreeing when both hold
/// it.
pub open spec fn dupe_confidence(a: Set<Seq<u8>>, b: Set<Seq<u8>>) -> int {
    let size_sum = (a.len() + b.len()) as int;
    let diff_size = (a.difference(b).len() + b.difference(a).len()) as int;
    100 * (size_sum - diff_size) / size_sum
}

/// Whether two listed folders are duplicates of each other, or why that
/// cannot be told.
pub open spec fn duplicated(first: ListingModel, second: ListingModel, threshold: Option<u8>)
    -> Result<bool, MergeError> {
    match (first.files, second.files) {
        (Some(a), Some(b)) => {
            if a.to_set().len() + b.to_set().len() == 0 {
                Err(MergeError::NoFiles)
            } else {
                Ok(dupe_confidence(a.to_set(), b.to_set()) >= threshold_of(threshold))
            }
        },
        _ => Err(MergeError::NotADirectory),
    }
}

/// Sizes of sets of names, counted on lists: the size of a list's set is the
/// number of its distinct names, and the size of its difference with another
/// is the number of its distinct names that the other lacks.
pub proof fn lemma_name_set_sizes(a: Seq<Seq<u8>>, b: Seq<Seq<u8>>)
    ensures
        a.to_set().finite(),
        a.to_set().len() == distinct(a).len(),
        a.to_set().difference(b.to_set()).len() == distinct(a).filter(
            |name: Seq<u8>| !b.contains(name),
        ).len(),
{
    let missing = |name: Seq<u8>| !b.contains(name);
    let only = distinct(a).filter(missing);
    lemma_distinct(a);
    lemma_distinct_set(a);
    lemma_filter_keeps_distinct(distinct(a), missing);
    assert forall|name: Seq<u8>| only.to_set().contains(name) <==> a.to_set().difference(
        b.to_set(),
    ).contains(name) by {
        if only.contains(name) {
            distinct(a).lemma_filter_contains_rev(missing, name);
            let i = choose|i: int| 0 <= i < only.len() && only[i] == name;
            distinct(a).lemma_filter_pred(missing, i);
        }
        if a.contains(name) && !b.contains(name) {
            assert(distinct(a).contains(name));
            let i = choose|i: int| 0 <= i < distinct(a).len() && distinct(a)[i] == name;
            distinct(a).lemma_filter_contains(missing, i);
        }
    }
    assert(only.to_set() =~= a.to_set().difference(b.to_set()));
    only.unique_seq_to_set();
}

/// Whether `names` holds `name`.
fn holds_name(names: &Vec<Vec<u8>>, name: &Vec<u8>) -> (found: bool)
    ensures
        found == views(names@).contains(name@),
{
    let mut k: usize = 0;
    while k < names.len()
        invariant
            k <= names.len(),
            forall|m: int| 0 <= m < k ==> (#[trigger] views(names@)[m]) != name@,
        decreases names.len() - k,
    {
        if bytes_eq(names[k].as_slice(), name.as_slice()) {
            assert(views(names@)[k as int] == name@);
            return true;
        }
        k += 1;
    }
    false
}

/// The names of `names`, each once.
fn distinct_names(names: &Vec<Vec<u8>>) -> (once: Vec<Vec<u8>>)
    ensures
        views(once@) == distinct(views(names@)),
{
    let ghost all = views(names@);
    let mut once: Vec<Vec<u8>> = Vec::new();
    let mut i: usize = 0;
    assert(views(once@) =~= distinct(all.subrange(0, 0)));
    while i < names.len()
        invariant
            i <= names.len(),
            all == views(names@),
            views(once@) == distinct(all.subrange(0, i as int)),
        decreases names.len() - i,
    {
        proof {
            assert(all.subrange(0, i + 1).drop_last() == all.subrange(0, i as int));
            assert(all.subrange(0, i + 1).last() == names@[i as int]@);
        }
        if !holds_name(&once, &names[i]) {
            let name = bytes_clone(names[i].as_slice());
            proof {
                lemma_views_push(once@, name);
            }
            once.push(name);
        }
        i += 1;
    }
    assert(all.subrange(0, names.len() as int) == all);
    once
}

/// How many of `names` are not among `others`.
fn count_missing(names: &Vec<Vec<u8>>, others: &Vec<Vec<u8>>) -> (count: usize)
    ensures
        count == views(names@).filter(|name: Seq<u8>| !views(others@).contains(name)).len(),
{
    let ghost all = views(names@);
    let ghost missing = |name: Seq<u8>| !views(others@).contains(name);
    let mut count: usize = 0;
    let mut i: usize = 0;
    proof {
        reveal(Seq::filter);
        assert(all.subrange(0, 0).filter(missing).len() == 0);
    }
    while i < names.len()
        invariant
            i <= names.len(),
            all == views(names@),
            missing == |name: Seq<u8>| !views(others@).contains(name),
            count == all.subrange(0, i as int).filter(missing).len(),
            count <= i,
        decreases names.len() - i,
    {
        proof {
            reveal(Seq::filter);
            assert(all.subrange(0, i + 1).drop_last() == all.subrange(0, i as int));
            assert(all.subrange(0, i + 1).last() == names@[i as int]@);
        }
        if !holds_name(others, &names[i]) {
            count += 1;
        }
        i += 1;
    }
    assert(all.subrange(0, names.len() as int) == all);
    count
}

/// Whether two folders are duplicates of each other: whether the share of
/// their file names that agree reaches the threshold, [`MERGE_THRESHOLD`]
/// where none is given. Folders that could not be listed, and a pair without
/// any file, are errors.
pub fn is_duplicated(first: &FolderListing, second: &FolderListing, threshold: Option<u8>) -> (verdict:
    Result<bool, MergeError>)
    ensures
        verdict == duplicated(first@, second@, threshold),
{
    let threshold: u8 = match threshold {
        Some(t) => t,
        None => MERGE_THRESHOLD,
    };
    match (&first.files, &second.files) {
        (Some(contents1), Some(contents2)) => {
            let once1 = distinct_names(contents1);
            let once2 = distinct_names(contents2);
            let only1 = count_missing(&once1, contents2);
            let only2 = count_missing(&once2, contents1);
            proof {
                lemma_name_set_sizes(views(contents1@), views(contents2@));
                lemma_name_set_sizes(views(contents2@), views(contents1@));
                views(once1@).lemma_filter_len(
                    |name: Seq<u8>| !views(contents2@).contains(name),
                );
                views(once2@).lemma_filter_len(
                    |name: Seq<u8>| !views(contents1@).contains(name),
                );
            }
            let size_sum: u128 = once1.len() as u128 + once2.len() as u128;
            let diff_size: u128 = only1 as u128 + only2 as u128;
            if size_sum == 0 {
                Err(MergeError::NoFiles)
            } else {
                let dupe_confidence: u128 = 100 * (size_sum - diff_size) / size_sum;
                Ok(dupe_confidence >= threshold as u128)
            }
        },
        _ => Err(MergeError::NotADirectory),
    }
}

/// Whether `listings` holds a listing of `folder`.
pub open spec fn has_listing(listings: Seq<ListingModel>, folder: PathModel) -> bool {
    holds_where(listings, |listing: ListingModel| listing.folder == folder)
}

/// The position of the first listing of `folder`.
pub open spec fn listing_position(listings: Seq<ListingModel>, folder: PathModel) -> int {
    first_where(listings, |listing: ListingModel| listing.folder == folder)
}

/// Whether two folders are known to be duplicates: both are listed, and
/// their first listings agree far enough.
pub open spec fn similar(
    listings: Seq<ListingModel>,
    a: PathModel,
    b: PathModel,
    threshold: Option<u8>,
) -> bool {
    &&& has_listing(listings, a)
    &&& has_listing(listings, b)
    &&& duplicated(
        listings[listing_position(listings, a)],
        listings[listing_position(listings, b)],
        threshold,
    ) == Ok::<bool, MergeError>(true)
}

/// What a [`MergePair`] stands for.
pub struct PairModel {
    pub from: PathModel,
    pub dest: PathModel,
}

/// A folder and the folder that it is merged into.
#[derive(Debug)]
pub struct MergePair {
    pub from: TreePath,
    pub dest: TreePath,
}

impl View for MergePair {
    type V = PairModel;

    open spec fn view(&self) -> PairModel {
        PairModel { from: self.from@, dest: self.dest@ }
    }
}

/// Whether some edge leaves `from`.
pub open spec fn has_source(edges: Seq<PairModel>, from: PathModel) -> bool {
    holds_where(edges, |edge: PairModel| edge.from == from)
}

/// The position of the first edge that leaves `from`.
pub open spec fn source_position(edges: Seq<PairModel>, from: PathModel) -> int {
    first_where(edges, |edge: PairModel| edge.from == from)
}

/// The edges after `from` was pointed at `dest`: an edge that left `from`
/// before is overwritten in its place, else the new edge comes last.
pub open spec fn linked(edges: Seq<PairModel>, from: PathModel, dest: PathModel) -> Seq<PairModel> {
    if has_source(edges, from) {
        edges.update(source_position(edges, from), PairModel { from, dest })
    } else {
        edges.push(PairModel { from, dest })
    }
}

/// The edges after two neighbours of a group were compared: where their
/// folders are duplicates, the later file's folder points at the earlier's.
pub open spec fn pair_edge(
    edges: Seq<PairModel>,
    listings: Seq<ListingModel>,
    threshold: Option<u8>,
    earlier: PathModel,
    later: PathModel,
) -> Seq<PairModel> {
    match (earlier.parent(), later.parent()) {
        (Some(dest), Some(from)) => if similar(listings, dest, from, threshold) {
            linked(edges, from, dest)
        } else {
            edges
        },
        _ => edges,
    }
}

/// The edges after the first `upto` neighbouring pairs of `paths` were compared.
pub open spec fn pair_edges(
    edges: Seq<PairModel>,
    listings: Seq<ListingModel>,
    threshold: Option<u8>,
    paths: Seq<PathModel>,
    upto: nat,
) -> Seq<PairModel>
    decreases upto,
{
    if upto == 0 {
        edges
    } else {
        pair_edge(
            pair_edges(edges, listings, threshold, paths, (upto - 1) as nat),
            listings,
            threshold,
            paths[upto - 1],
            paths[upto as int],
        )
    }
}

/// The edges after all groups were walked, each along its neighbouring pairs.
pub open spec fn all_edges(
    groups: Seq<GroupModel>,
    listings: Seq<ListingModel>,
    threshold: Option<u8>,
) -> Seq<PairModel>
    decreases groups.len(),
{
    if groups.len() == 0 {
        Seq::empty()
    } else {
        let paths = groups.last().paths;
        pair_edges(
            all_edges(groups.drop_last(), listings, threshold),
            listings,
            threshold,
            paths,
            if paths.len() > 1 {
                (paths.len() - 1) as nat
            } else {
                0
            },
        )
    }
}

/// How many edges are followed at most from a destination to its final target.
pub const MAX_HOPS: usize = 10;

/// Where `target` leads after at most `hops` further edges.
pub open spec fn follow(edges: Seq<PairModel>, target: PathModel, hops: nat) -> PathModel
    decreases hops,
{
    if hops > 0 && has_source(edges, target) {
        follow(edges, edges[source_position(edges, target)].dest, (hops - 1) as nat)
    } else {
        target
    }
}

/// The edges with every destination replaced by its final target.
pub open spec fn flattened(edges: Seq<PairModel>) -> Seq<PairModel> {
    Seq::new(
        edges.len(),
        |k: int| PairModel { from: edges[k].from, dest: follow(edges, edges[k].dest, MAX_HOPS as nat) },
    )
}

/// The merges that an index and the listings of its folders call for.
pub open spec fn resolved(
    groups: Seq<GroupModel>,
    listings: Seq<ListingModel>,
    threshold: Option<u8>,
) -> Seq<PairModel> {
    flattened(all_edges(groups, listings, threshold))
}

/// The position of the first listing of `folder`, if there is one.
fn find_listing(listings: &Vec<FolderListing>, folder: &TreePath) -> (at: Option<usize>)
    ensures
        match at {
            Some(i) => has_listing(views(listings@), folder@) && listing_position(
                views(listings@),
                folder@,
            ) == i && i < listings.len() && views(listings@)[i as int].folder == folder@,
            None => !has_listing(views(listings@), folder@),
        },
{
    let mut i: usize = 0;
    while i < listings.len()
        invariant
            i <= listings.len(),
            forall|j: int| 0 <= j < i ==> (#[trigger] views(listings@)[j]).folder != folder@,
        decreases listings.len() - i,
    {
        if listings[i].folder.same_as(folder) {
            assert(views(listings@)[i as int].folder == folder@);
            proof {
                lemma_first_where_is(
                    views(listings@),
                    |listing: ListingModel| listing.folder == folder@,
                    i as int,
                );
            }
            return Some(i);
        }
        i += 1;
    }
    None
}

/// The position of the first edge that leaves `from`, if there is one.
fn find_source(edges: &Vec<MergePair>, from: &TreePath) -> (at: Option<usize>)
    ensures
        match at {
            Some(k) => has_source(views(edges@), from@) && source_position(views(edges@), from@)
                == k && k < edges.len() && views(edges@)[k as int].from == from@,
            None => !has_source(views(edges@), from@),
        },
{
    let mut k: usize = 0;
    while k < edges.len()
        invariant
            k <= edges.len(),
            forall|j: int| 0 <= j < k ==> (#[trigger] views(edges@)[j]).from != from@,
        decreases edges.len() - k,
    {
        if edges[k].from.same_as(from) {
            assert(views(edges@)[k as int].from == from@);
            proof {
                lemma_first_where_is(views(edges@), |edge: PairModel| edge.from == from@, k as int);
            }
            return Some(k);
        }
        k += 1;
    }
    None
}

/// Points `from` at `dest`.
fn link(edges: &mut Vec<MergePair>, from: TreePath, dest: TreePath)
    ensures
        views(final(edges)@) == linked(views(old(edges)@), from@, dest@),
{
    match find_source(edges, &from) {
        Some(k) => {
            assert(views(edges@)[k as int].from == from@);
            assert(edges@[k as int]@.from == from@);
            edges[k].dest = dest;
            assert(edges@[k as int]@ == (PairModel { from: from@, dest: dest@ }));
            assert(views(edges@) =~= views(old(edges)@).update(
                k as int,
                PairModel { from: from@, dest: dest@ },
            ));
        },
        None => {
            let pair = MergePair { from, dest };
            proof {
                lemma_views_push(edges@, pair);
            }
            edges.push(pair);
        },
    }
}

/// Whether two folders are known to be duplicates.
fn folders_similar(
    listings: &Vec<FolderListing>,
    a: &TreePath,
    b: &TreePath,
    threshold: Option<u8>,
) -> (alike: bool)
    ensures
        alike == similar(views(listings@), a@, b@, threshold),
{
    match (find_listing(listings, a), find_listing(listings, b)) {
        (Some(i), Some(j)) => {
            assert(views(listings@)[i as int] == listings@[i as int]@);
            assert(views(listings@)[j as int] == listings@[j as int]@);
            match is_duplicated(&listings[i], &listings[j], threshold) {
                Ok(dup) => dup,
                Err(_) => false,
            }
        },
        _ => false,
    }
}

/// Where `dest` leads after at most [`MAX_HOPS`] further edges.
fn final_target(edges: &Vec<MergePair>, dest: &TreePath) -> (target: TreePath)
    ensures
        target@ == follow(views(edges@), dest@, MAX_HOPS as nat),
{
    let mut target = dest.duplicate();
    let mut left: usize = MAX_HOPS;
    while left > 0
        invariant
            left <= MAX_HOPS,
            follow(views(edges@), target@, left as nat) == follow(
                views(edges@),
                dest@,
                MAX_HOPS as nat,
            ),
        decreases left,
    {
        match find_source(edges, &target) {
            Some(k) => {
                assert(views(edges@)[k as int] == edges@[k as int]@);
                target = edges[k].dest.duplicate();
            },
            None => {
                return target;
            },
        }
        left -= 1;
    }
    target
}

/// The merges that the index calls for: for every two neighbours of a hash
/// group whose folders are duplicates, the later folder is merged into the
/// earlier one, and each folder is sent to the end of the chain of merges
/// that starts at its destination, [`MAX_HOPS`] edges at most. A pair whose
/// two folders are the same may come out; it is for the caller to pass over.
pub fn resolve(index: &ChartHashes, listings: &Vec<FolderListing>, threshold: Option<u8>) -> (pairs:
    Vec<MergePair>)
    ensures
        views(pairs@) == resolved(index@, views(listings@), threshold),
{
    let groups = index.hashes();
    let ghost all = views(listings@);
    let mut edges: Vec<MergePair> = Vec::new();
    let mut g: usize = 0;
    assert(views(edges@) =~= all_edges(index@.subrange(0, 0), all, threshold));
    while g < groups.len()
        invariant
            g <= groups.len(),
            views(groups@) == index@,
            all == views(listings@),
            views(edges@) == all_edges(index@.subrange(0, g as int), all, threshold),
        decreases groups.len() - g,
    {
        let paths = &groups[g].paths;
        proof {
            assert(index@.subrange(0, g + 1).drop_last() == index@.subrange(0, g as int));
            assert(index@.subrange(0, g + 1).last() == groups@[g as int]@);
        }
        let ghost before = views(edges@);
        if paths.len() > 1 {
            let mut i: usize = 0;
            while i < paths.len() - 1
                invariant
                    paths.len() > 1,
                    i <= paths.len() - 1,
                    all == views(listings@),
                    views(edges@) == pair_edges(before, all, threshold, views(paths@), i as nat),
                decreases paths.len() - i,
            {
                assert(views(paths@)[i as int] == paths@[i as int]@);
                assert(views(paths@)[i + 1] == paths@[i + 1]@);
                match (paths[i].parent(), paths[i + 1].parent()) {
                    (Some(dest), Some(from)) => {
                        if folders_similar(listings, &dest, &from, threshold) {
                            link(&mut edges, from, dest);
                        }
                    },
                    _ => {},
                }
                i += 1;
            }
        }
        g += 1;
    }
    assert(index@.subrange(0, groups.len() as int) == index@);
    let mut pairs: Vec<MergePair> = Vec::new();
    let mut k: usize = 0;
    while k < edges.len()
        invariant
            k <= edges.len(),
            pairs.len() == k,
            forall|m: int|
                0 <= m < k ==> (#[trigger] views(pairs@)[m]) == flattened(views(edges@))[m],
        decreases edges.len() - k,
    {
        assert(views(edges@)[k as int] == edges@[k as int]@);
        let pair = MergePair {
            from: edges[k].from.duplicate(),
            dest: final_target(&edges, &edges[k].dest),
        };
        proof {
            lemma_views_push(pairs@, pair);
        }
        pairs.push(pair);
        k += 1;
    }
    assert(views(pairs@) =~= flattened(views(edges@)));
    pairs
}

/// What is done about one resolved merge.
#[derive(Debug, Clone, Copy, PartialEq, Eq, Structural)]
pub enum MergeAction {
    /// The source folder is moved into the destination.
    Move,
    /// A dry run: the merge is reported and nothing is moved.
    DryRun,
    /// Source and destination are the same folder: nothing to do but to warn.
    SameFolder,
}

/// What a [`MergeStep`] stands for.
pub struct StepModel {
    pub from: PathModel,
    pub dest: PathModel,
    pub action: MergeAction,
}

/// One resolved merge and what is done about it.
#[derive(Debug)]
pub struct MergeStep {
    pub from: TreePath,
    pub dest: TreePath,
    pub action: MergeAction,
}

impl View for MergeStep {
    type V = StepModel;

    open spec fn view(&self) -> StepModel {
        StepModel { from: self.from@, dest: self.dest@, action: self.action }
    }
}

/// What is done about a resolved merge: a folder is never merged into
/// itself, and a dry run moves nothing.
pub open spec fn action_for(pair: PairModel, dryrun: bool) -> MergeAction {
    if pair.from == pair.dest {
        MergeAction::SameFolder
    } else if dryrun {
        MergeAction::DryRun
    } else {
        MergeAction::Move
    }
}

/// The steps of the merge stage: the resolved merges, each with its action.
pub open spec fn planned(
    groups: Seq<GroupModel>,
    listings: Seq<ListingModel>,
    threshold: Option<u8>,
    dryrun: bool,
) -> Seq<StepModel> {
    let pairs = resolved(groups, listings, threshold);
    Seq::new(
        pairs.len(),
        |k: int|
            StepModel {
                from: pairs[k].from,
                dest: pairs[k].dest,
                action: action_for(pairs[k], dryrun),
            },
    )
}

/// The merge stage: the merges that [`resolve`] finds, in its order, each
/// with what is to be done about it. Only the steps marked
/// [`MergeAction::Move`] change anything.
pub fn merge(
    index: &ChartHashes,
    listings: &Vec<FolderListing>,
    threshold: Option<u8>,
    dryrun: bool,
) -> (steps: Vec<MergeStep>)
    ensures
        views(steps@) == planned(index@, views(listings@), threshold, dryrun),
{
    let pairs = resolve(index, listings, threshold);
    let mut steps: Vec<MergeStep> = Vec::new();
    let mut k: usize = 0;
    while k < pairs.len()
        invariant
            k <= pairs.len(),
            steps.len() == k,
            views(pairs@) == resolved(index@, views(listings@), threshold),
            forall|m: int|
                0 <= m < k ==> (#[trigger] views(steps@)[m]) == planned(
                    index@,
                    views(listings@),
                    threshold,
                    dryrun,
                )[m],
        decreases pairs.len() - k,
    {
        assert(views(pairs@)[k as int] == pairs@[k as int]@);
        let pair = &pairs[k];
        let action = if pair.from.same_as(&pair.dest) {
            MergeAction::SameFolder
        } else if dryrun {
            MergeAction::DryRun
        } else {
            MergeAction::Move
        };
        let step = MergeStep { from: pair.from.duplicate(), dest: pair.dest.duplicate(), action };
        proof {
            lemma_views_push(steps@, step);
        }
        steps.push(step);
        k += 1;
    }
    assert(views(steps@) =~= planned(index@, views(listings@), threshold, dryrun));
    steps
}

/// Whether no two edges leave the same folder.
pub open spec fn sources_distinct(edges: Seq<PairModel>) -> bool {
    forall|i: int, j: int|
        0 <= i < j < edges.len() ==> (#[trigger] edges[i]).from != (#[trigger] edges[j]).from
}

/// An edge that leaves `from` shows that some edge does.
pub proof fn lemma_has_source(edges: Seq<PairModel>, from: PathModel, k: int)
    requires
        0 <= k < edges.len(),
        edges[k].from == from,
    ensures
        has_source(edges, from),
{
    let wanted = |edge: PairModel| edge.from == from;
    assert(wanted(edges[k]));
}

/// Pointing a folder at another gives it an edge, keeps every other
/// folder's edge, and leaves no folder with two.
pub proof fn lemma_linked(edges: Seq<PairModel>, from: PathModel, dest: PathModel)
    ensures
        has_source(linked(edges, from, dest), from),
        forall|x: PathModel| has_source(edges, x) ==> has_source(linked(edges, from, dest), x),
        sources_distinct(edges) ==> sources_distinct(linked(edges, from, dest)),
{
    let after = linked(edges, from, dest);
    let at: int = if has_source(edges, from) {
        source_position(edges, from)
    } else {
        edges.len() as int
    };
    if has_source(edges, from) {
        lemma_first_where(edges, |edge: PairModel| edge.from == from);
    }
    assert(after[at].from == from);
    lemma_has_source(after, from, at);
    assert forall|k: int| 0 <= k < edges.len() implies (#[trigger] after[k]).from
        == edges[k].from by {}
    assert forall|x: PathModel| has_source(edges, x) implies has_source(after, x) by {
        let wanted = |edge: PairModel| edge.from == x;
        let k = choose|k: int| 0 <= k < edges.len() && wanted(#[trigger] edges[k]);
        assert(after[k].from == x);
        lemma_has_source(after, x, k);
    }
    if sources_distinct(edges) {
        assert forall|i: int, j: int| 0 <= i < j < after.len() implies (#[trigger] after[i]).from
            != (#[trigger] after[j]).from by {
            if j < edges.len() {
                assert(edges[i].from != edges[j].from);
            } else {
                if after[i].from == from {
                    lemma_has_source(edges, from, i);
                }
            }
        }
    }
}

/// Comparing further pairs of a group takes no folder's edge away, and
/// leaves no folder with two.
pub proof fn lemma_pair_edges_keep(
    edges: Seq<PairModel>,
    listings: Seq<ListingModel>,
    threshold: Option<u8>,
    paths: Seq<PathModel>,
    upto: nat,
)
    ensures
        forall|x: PathModel|
            has_source(edges, x) ==> has_source(
                pair_edges(edges, listings, threshold, paths, upto),
                x,
            ),
        sources_distinct(edges) ==> sources_distinct(
            pair_edges(edges, listings, threshold, paths, upto),
        ),
    decreases upto,
{
    if upto > 0 {
        let before = pair_edges(edges, listings, threshold, paths, (upto - 1) as nat);
        lemma_pair_edges_keep(edges, listings, threshold, paths, (upto - 1) as nat);
        let earlier = paths[upto - 1];
        let later = paths[upto as int];
        if earlier.parent() is Some && later.parent() is Some {
            lemma_linked(before, later.parent()->0, earlier.parent()->0);
        }
    }
}

/// Among the first `upto` pairs of a group, a pair of duplicate folders
/// leaves the later folder with an edge.
pub proof fn lemma_pair_edges_link(
    edges: Seq<PairModel>,
    listings: Seq<ListingModel>,
    threshold: Option<u8>,
    paths: Seq<PathModel>,
    upto: nat,
    i: int,
)
    requires
        0 <= i < upto,
        paths[i].parent() is Some,
        paths[i + 1].parent() is Some,
        similar(listings, paths[i].parent()->0, paths[i + 1].parent()->0, threshold),
    ensures
        has_source(pair_edges(edges, listings, threshold, paths, upto), paths[i + 1].parent()->0),
    decreases upto,
{
    let before = pair_edges(edges, listings, threshold, paths, (upto - 1) as nat);
    let earlier = paths[upto - 1];
    let later = paths[upto as int];
    if i < upto - 1 {
        lemma_pair_edges_link(edges, listings, threshold, paths, (upto - 1) as nat, i);
    }
    if earlier.parent() is Some && later.parent() is Some {
        lemma_linked(before, later.parent()->0, earlier.parent()->0);
    }
}

/// No folder is the source of two edges.
pub proof fn lemma_all_edges_distinct(
    groups: Seq<GroupModel>,
    listings: Seq<ListingModel>,
    threshold: Option<u8>,
)
    ensures
        sources_distinct(all_edges(groups, listings, threshold)),
    decreases groups.len(),
{
    if groups.len() > 0 {
        lemma_all_edges_distinct(groups.drop_last(), listings, threshold);
        let paths = groups.last().paths;
        lemma_pair_edges_keep(
            all_edges(groups.drop_last(), listings, threshold),
            listings,
            threshold,
            paths,
            if paths.len() > 1 {
                (paths.len() - 1) as nat
            } else {
                0
            },
        );
    }
}

/// Every two neighbours of a hash group whose folders are duplicates leave
/// the later folder with an edge.
pub proof fn lemma_all_edges_link(
    groups: Seq<GroupModel>,
    listings: Seq<ListingModel>,
    threshold: Option<u8>,
    g: int,
    i: int,
)
    requires
        0 <= g < groups.len(),
        0 <= i,
        i + 1 < groups[g].paths.len(),
        groups[g].paths[i].parent() is Some,
        groups[g].paths[i + 1].parent() is Some,
        similar(
            listings,
            groups[g].paths[i].parent()->0,
            groups[g].paths[i + 1].parent()->0,
            threshold,
        ),
    ensures
        has_source(all_edges(groups, listings, threshold), groups[g].paths[i + 1].parent()->0),
    decreases groups.len(),
{
    let before = all_edges(groups.drop_last(), listings, threshold);
    let paths = groups.last().paths;
    let upto: nat = if paths.len() > 1 {
        (paths.len() - 1) as nat
    } else {
        0
    };
    if g == groups.len() - 1 {
        lemma_pair_edges_link(before, listings, threshold, paths, upto, i);
    } else {
        assert(groups.drop_last()[g] == groups[g]);
        lemma_all_edges_link(groups.drop_last(), listings, threshold, g, i);
        lemma_pair_edges_keep(before, listings, threshold, paths, upto);
    }
}

/// Whether some hash group holds two neighbours, the earlier in `dest` and
/// the later in `from`, whose folders are duplicates.
pub open spec fn is_duplicate_pair(
    groups: Seq<GroupModel>,
    listings: Seq<ListingModel>,
    threshold: Option<u8>,
    from: PathModel,
    dest: PathModel,
) -> bool {
    exists|g: int, i: int|
        0 <= g < groups.len() && 0 <= i && i + 1 < groups[g].paths.len() && (
        #[trigger] groups[g].paths[i]).parent() == Some(dest) && groups[g].paths[i + 1].parent()
            == Some(from) && similar(listings, dest, from, threshold)
}

/// Whether every edge joins the folders of two neighbours of `paths` that
/// are duplicates, or was among `edges` before.
spec fn edges_have_cause(
    edges: Seq<PairModel>,
    before: Seq<PairModel>,
    listings: Seq<ListingModel>,
    threshold: Option<u8>,
    paths: Seq<PathModel>,
    upto: nat,
) -> bool {
    forall|k: int|
        0 <= k < edges.len() ==> before.contains(#[trigger] edges[k]) || exists|i: int|
            0 <= i < upto && (#[trigger] paths[i]).parent() == Some(edges[k].dest) && paths[i
                + 1].parent() == Some(edges[k].from) && similar(
                listings,
                edges[k].dest,
                edges[k].from,
                threshold,
            )
}

/// Walking a group adds edges between duplicate neighbours only.
proof fn lemma_pair_edges_cause(
    edges: Seq<PairModel>,
    listings: Seq<ListingModel>,
    threshold: Option<u8>,
    paths: Seq<PathModel>,
    upto: nat,
)
    ensures
        edges_have_cause(
            pair_edges(edges, listings, threshold, paths, upto),
            edges,
            listings,
            threshold,
            paths,
            upto,
        ),
    decreases upto,
{
    let after = pair_edges(edges, listings, threshold, paths, upto);
    if upto == 0 {
        assert forall|k: int| 0 <= k < after.len() implies edges.contains(#[trigger] after[k]) by {
            assert(edges[k] == after[k]);
        }
    } else {
        let shorter = pair_edges(edges, listings, threshold, paths, (upto - 1) as nat);
        lemma_pair_edges_cause(edges, listings, threshold, paths, (upto - 1) as nat);
        let earlier = paths[upto - 1];
        let later = paths[upto as int];
        let linking = earlier.parent() is Some && later.parent() is Some && similar(
            listings,
            earlier.parent()->0,
            later.parent()->0,
            threshold,
        );
        let at: int = if linking && has_source(shorter, later.parent()->0) {
            source_position(shorter, later.parent()->0)
        } else {
            shorter.len() as int
        };
        if linking && has_source(shorter, later.parent()->0) {
            lemma_first_where(shorter, |edge: PairModel| edge.from == later.parent()->0);
        }
        assert forall|k: int| 0 <= k < after.len() implies edges.contains(#[trigger] after[k])
            || exists|i: int|
            0 <= i < upto && (#[trigger] paths[i]).parent() == Some(after[k].dest) && paths[i
                + 1].parent() == Some(after[k].from) && similar(
                listings,
                after[k].dest,
                after[k].from,
                threshold,
            ) by {
            if linking && k == at {
                assert(paths[upto - 1].parent() == Some(after[k].dest));
            } else {
                assert(after[k] == shorter[k]);
                if !edges.contains(shorter[k]) {
                    let i = choose|i: int|
                        0 <= i < upto - 1 && (#[trigger] paths[i]).parent() == Some(shorter[k].dest)
                            && paths[i + 1].parent() == Some(shorter[k].from) && similar(
                            listings,
                            shorter[k].dest,
                            shorter[k].from,
                            threshold,
                        );
                    assert(paths[i].parent() == Some(after[k].dest));
                }
            }
        }
    }
}

/// No folder is pointed at another without cause: every edge joins the
/// folders of two neighbours of a hash group that are duplicates, the later
/// pointing at the earlier.
pub proof fn lemma_every_edge_has_a_cause(
    groups: Seq<GroupModel>,
    listings: Seq<ListingModel>,
    threshold: Option<u8>,
    k: int,
)
    requires
        0 <= k < all_edges(groups, listings, threshold).len(),
    ensures
        is_duplicate_pair(
            groups,
            listings,
            threshold,
            all_edges(groups, listings, threshold)[k].from,
            all_edges(groups, listings, threshold)[k].dest,
        ),
    decreases groups.len(),
{
    let edges = all_edges(groups, listings, threshold);
    let before = all_edges(groups.drop_last(), listings, threshold);
    let paths = groups.last().paths;
    let upto: nat = if paths.len() > 1 {
        (paths.len() - 1) as nat
    } else {
        0
    };
    let last = groups.len() - 1;
    lemma_pair_edges_cause(before, listings, threshold, paths, upto);
    if before.contains(edges[k]) {
        let m = choose|m: int| 0 <= m < before.len() && before[m] == edges[k];
        lemma_every_edge_has_a_cause(groups.drop_last(), listings, threshold, m);
        let (g, i) = choose|g: int, i: int|
            0 <= g < groups.drop_last().len() && 0 <= i && i + 1 < groups.drop_last()[g].paths.len()
                && (#[trigger] groups.drop_last()[g].paths[i]).parent() == Some(edges[k].dest)
                && groups.drop_last()[g].paths[i + 1].parent() == Some(edges[k].from) && similar(
                listings,
                edges[k].dest,
                edges[k].from,
                threshold,
            );
        assert(groups[g] == groups.drop_last()[g]);
        assert(groups[g].paths[i].parent() == Some(edges[k].dest));
    } else {
        let i = choose|i: int|
            0 <= i < upto && (#[trigger] paths[i]).parent() == Some(edges[k].dest) && paths[i
                + 1].parent() == Some(edges[k].from) && similar(
                listings,
                edges[k].dest,
                edges[k].from,
                threshold,
            );
        assert(groups[last].paths[i].parent() == Some(edges[k].dest));
    }
}

/// Whether no two neighbours of a hash group lie in different folders that
/// are duplicates: what a tree looks like once every duplicate is merged.
pub open spec fn is_settled(
    groups: Seq<GroupModel>,
    listings: Seq<ListingModel>,
    threshold: Option<u8>,
) -> bool {
    forall|from: PathModel, dest: PathModel|
        #[trigger] is_duplicate_pair(groups, listings, threshold, from, dest) ==> from == dest
}

/// Where every edge leads from a folder to itself, every walk stays where
/// it starts.
proof fn lemma_follow_stays(edges: Seq<PairModel>, target: PathModel, hops: nat)
    requires
        forall|k: int| 0 <= k < edges.len() ==> (#[trigger] edges[k]).from == edges[k].dest,
    ensures
        follow(edges, target, hops) == target,
    decreases hops,
{
    if hops > 0 && has_source(edges, target) {
        lemma_first_where(edges, |edge: PairModel| edge.from == target);
        let at = source_position(edges, target);
        assert(edges[at].dest == target);
        lemma_follow_stays(edges, target, (hops - 1) as nat);
    }
}

/// In a tree where no two different folders are duplicate neighbours, the
/// merge stage moves nothing: every resolved merge, if there is one, leads
/// from a folder to itself, and none is carried out. A second pass over a tree
/// in which every duplicate was merged finds nothing to do.
pub proof fn lemma_settled_tree_merges_nothing(
    groups: Seq<GroupModel>,
    listings: Seq<ListingModel>,
    threshold: Option<u8>,
    dryrun: bool,
)
    requires
        is_settled(groups, listings, threshold),
    ensures
        forall|k: int|
            0 <= k < resolved(groups, listings, threshold).len() ==> (#[trigger] resolved(
                groups,
                listings,
                threshold,
            )[k]).from == resolved(groups, listings, threshold)[k].dest,
        forall|k: int|
            0 <= k < planned(groups, listings, threshold, dryrun).len() ==> (#[trigger] planned(
                groups,
                listings,
                threshold,
                dryrun,
            )[k]).action == MergeAction::SameFolder,
{
    let edges = all_edges(groups, listings, threshold);
    assert forall|k: int| 0 <= k < edges.len() implies (#[trigger] edges[k]).from
        == edges[k].dest by {
        lemma_every_edge_has_a_cause(groups, listings, threshold, k);
    }
    assert forall|k: int| 0 <= k < edges.len() implies (#[trigger] flattened(edges)[k]).from
        == flattened(edges)[k].dest by {
        lemma_follow_stays(edges, edges[k].dest, MAX_HOPS as nat);
        assert(edges[k].from == edges[k].dest);
    }
}

/// A walk along the edges that has reached a folder without an edge has
/// reached its end: more hops lead no further.
pub proof fn lemma_follow_reaches_end(edges: Seq<PairModel>, target: PathModel, hops: nat)
    requires
        !has_source(edges, follow(edges, target, hops)),
    ensures
        follow(edges, target, hops + 1) == follow(edges, target, hops),
    decreases hops,
{
    if hops > 0 && has_source(edges, target) {
        lemma_follow_reaches_end(
            edges,
            edges[source_position(edges, target)].dest,
            (hops - 1) as nat,
        );
    }
}

/// Wherever two files of the same content lie next to each other in their
/// hash group and their folders are duplicates, the later file's folder is
/// merged: it is the source of one of the resolved merges, and of one only.
pub proof fn lemma_duplicate_folder_is_merged(
    groups: Seq<GroupModel>,
    listings: Seq<ListingModel>,
    threshold: Option<u8>,
    g: int,
    i: int,
)
    requires
        0 <= g < groups.len(),
        0 <= i,
        i + 1 < groups[g].paths.len(),
        groups[g].paths[i].parent() is Some,
        groups[g].paths[i + 1].parent() is Some,
        similar(
            listings,
            groups[g].paths[i].parent()->0,
            groups[g].paths[i + 1].parent()->0,
            threshold,
        ),
    ensures
        has_source(resolved(groups, listings, threshold), groups[g].paths[i + 1].parent()->0),
        sources_distinct(resolved(groups, listings, threshold)),
{
    let edges = all_edges(groups, listings, threshold);
    let from = groups[g].paths[i + 1].parent()->0;
    lemma_all_edges_link(groups, listings, threshold, g, i);
    lemma_all_edges_distinct(groups, listings, threshold);
    let wanted = |edge: PairModel| edge.from == from;
    let k = choose|k: int| 0 <= k < edges.len() && wanted(#[trigger] edges[k]);
    assert(flattened(edges)[k].from == from);
    lemma_has_source(flattened(edges), from, k);
    assert forall|a: int, b: int| 0 <= a < b < flattened(edges).len() implies (
    #[trigger] flattened(edges)[a]).from != (#[trigger] flattened(edges)[b]).from by {
        assert(edges[a].from != edges[b].from);
    }
}

/// Two files of the same content in two different folders that are
/// duplicates of each other, and nothing else in the index: the one merge that
/// comes out sends the folder of the file discovered later into the folder of
/// the file discovered first.
pub proof fn lemma_later_folder_merges_into_earlier(
    hash: Seq<char>,
    first: PathModel,
    second: PathModel,
    listings: Seq<ListingModel>,
    threshold: Option<u8>,
)
    requires
        first.parent() is Some,
        second.parent() is Some,
        first.parent() != second.parent(),
        similar(listings, first.parent()->0, second.parent()->0, threshold),
    ensures
        resolved(seq![GroupModel { hash, paths: seq![first, second] }], listings, threshold)
            == seq![PairModel { from: second.parent()->0, dest: first.parent()->0 }],
{
    let group = GroupModel { hash, paths: seq![first, second] };
    let groups = seq![group];
    let from = second.parent()->0;
    let dest = first.parent()->0;
    let none = Seq::<PairModel>::empty();
    assert(groups.drop_last() =~= Seq::<GroupModel>::empty());
    assert(all_edges(groups.drop_last(), listings, threshold) == none);
    assert(groups.last() == group);
    assert(pair_edges(none, listings, threshold, group.paths, 0) == none);
    assert(pair_edges(none, listings, threshold, group.paths, 1) == pair_edge(
        none,
        listings,
        threshold,
        first,
        second,
    )) by {
        reveal_with_fuel(pair_edges, 2);
    }
    assert(!has_source(none, from));
    let edges = all_edges(groups, listings, threshold);
    assert(edges == seq![PairModel { from, dest }]);
    assert(!has_source(edges, dest)) by {
        if has_source(edges, dest) {
            let wanted = |edge: PairModel| edge.from == dest;
            let k = choose|k: int| 0 <= k < edges.len() && wanted(#[trigger] edges[k]);
            assert(edges[k].from == from);
        }
    }
    assert(follow(edges, dest, MAX_HOPS as nat) == dest);
    assert(flattened(edges) =~= seq![PairModel { from, dest }]);
}

/// A dry run decides as a real run does: the same merges in the same order,
/// with the same folders passed over, and it moves nothing.
pub proof fn lemma_dry_run_decides_alike(
    groups: Seq<GroupModel>,
    listings: Seq<ListingModel>,
    threshold: Option<u8>,
)
    ensures
        planned(groups, listings, threshold, true).len() == planned(
            groups,
            listings,
            threshold,
            false,
        ).len(),
        forall|k: int|
            #![trigger planned(groups, listings, threshold, true)[k]]
            0 <= k < planned(groups, listings, threshold, true).len() ==> {
                let dry = planned(groups, listings, threshold, true)[k];
                let live = planned(groups, listings, threshold, false)[k];
                &&& dry.from == live.from
                &&& dry.dest == live.dest
                &&& dry.action != MergeAction::Move
                &&& (live.action == MergeAction::Move <==> dry.action == MergeAction::DryRun)
            },
{
}

} // verus!
