//! The image list of a directory: which entries are images, and in what order
//! they are shown.

use crate::config::SortAlgorithm;
use crate::sorting::{
    arranged, is_ascending, is_insertion_point, is_permutation, is_stable, is_weak_order_on,
    lemma_arranged_same_items, lemma_ascending, lemma_ascending_stable_is_sorted,
    lemma_insertion_point, lemma_neighbours_in_order, lemma_order_by_relation,
    lemma_order_is_permutation, lemma_order_is_stable, lemma_stable_order_push, stable_order,
};
use crate::text::{
    chars_of, file_stem, is_image_name, lemma_text_less_asymmetric, lemma_text_less_total,
    lemma_text_less_transitive, lowercase, lowercase_of, parse_number, spec_image_name,
    spec_parse_number, spec_stem, spec_text_less, text_less,
};
use vstd::prelude::*;

verus! {

/// What the viewer knows of one entry of a directory.
#[derive(Debug)]
pub struct FileEntry {
    /// The path under which the entry is opened.
    pub path: String,
    /// The entry's file name: the last component of its path.
    pub name: String,
    /// Whether the entry is a regular file.
    pub is_file: bool,
    /// When the file was created, in nanoseconds since the Unix epoch; `None`
    /// where the time is not available.
    pub created: Option<i128>,
    /// When the file was last modified, in nanoseconds since the Unix epoch;
    /// `None` where the time is not available.
    pub modified: Option<i128>,
}

/// A [`FileEntry`] with its texts as sequences of characters.
pub struct FileEntryView {
    pub path: Seq<char>,
    pub name: Seq<char>,
    pub is_file: bool,
    pub created: Option<i128>,
    pub modified: Option<i128>,
}

impl View for FileEntry {
    type V = FileEntryView;

    open spec fn view(&self) -> FileEntryView {
        FileEntryView {
            path: self.path@,
            name: self.name@,
            is_file: self.is_file,
            created: self.created,
            modified: self.modified,
        }
    }
}

/// The views of a sequence of entries.
pub open spec fn entry_views(entries: Seq<FileEntry>) -> Seq<FileEntryView> {
    entries.map_values(|e: FileEntry| e@)
}

/// The characters of each of a sequence of texts.
pub open spec fn texts(list: Seq<String>) -> Seq<Seq<char>> {
    list.map_values(|s: String| s@)
}

/// The entry is shown: it is a regular file whose name has the extension of
/// a supported image format, in any case.
pub open spec fn is_image(e: FileEntryView) -> bool {
    e.is_file && spec_image_name(e.name)
}

/// [`is_image`] as a predicate to filter by.
pub open spec fn image_filter() -> spec_fn(FileEntryView) -> bool {
    |e: FileEntryView| is_image(e)
}

/// The images among `entries`, in the order in which they are listed.
pub open spec fn images(entries: Seq<FileEntryView>) -> Seq<FileEntryView> {
    entries.filter(image_filter())
}

/// Time `a` is earlier than time `b`. A time that is not available counts as
/// the earliest time there is: it is earlier than every time that is
/// available, and two such times are equal.
pub open spec fn time_less(a: Option<i128>, b: Option<i128>) -> bool {
    match (a, b) {
        (Some(x), Some(y)) => x < y,
        (None, Some(_)) => true,
        _ => false,
    }
}

/// Stem `a` comes before stem `b`: by value where both are numbers, else as
/// lower-case text.
pub open spec fn name_less(a: Seq<char>, b: Seq<char>) -> bool {
    match (spec_parse_number(a), spec_parse_number(b)) {
        (Some(x), Some(y)) => x < y,
        _ => spec_text_less(lowercase_of(a), lowercase_of(b)),
    }
}

/// Entry `a` comes before entry `b` under the algorithm.
pub open spec fn precedes(alg: SortAlgorithm, a: FileEntryView, b: FileEntryView) -> bool {
    match alg {
        SortAlgorithm::FileName => name_less(spec_stem(a.name), spec_stem(b.name)),
        SortAlgorithm::CreatedTime => time_less(a.created, b.created),
        SortAlgorithm::ModifiedTime => time_less(a.modified, b.modified),
    }
}

/// [`precedes`] under one algorithm, as a relation to sort by.
pub open spec fn order_of(alg: SortAlgorithm) -> spec_fn(FileEntryView, FileEntryView) -> bool {
    |a: FileEntryView, b: FileEntryView| precedes(alg, a, b)
}

/// The image list of a directory: its images, sorted by the algorithm.
/// Images that the algorithm does not tell apart stay in the order in which
/// the directory lists them.
pub open spec fn image_list(entries: Seq<FileEntryView>, alg: SortAlgorithm) -> Seq<FileEntryView> {
    arranged(images(entries), order_of(alg))
}

/// The paths of the image list.
pub open spec fn image_paths(entries: Seq<FileEntryView>, alg: SortAlgorithm) -> Seq<Seq<char>> {
    image_list(entries, alg).map_values(|e: FileEntryView| e.path)
}

/// What an entry is sorted by, worked out once before sorting.
#[derive(Debug)]
pub enum SortKey {
    /// For sorting by file name: the number that the stem writes, if it
    /// writes one, and the stem in lower case.
    Name { number: Option<u64>, folded: Vec<char> },
    /// For sorting by a time: the time.
    Time { at: Option<i128> },
}

impl SortKey {
    /// This key comes before `other`. Keys of different kinds are not
    /// ordered.
    pub open spec fn precedes(self, other: SortKey) -> bool {
        match (self, other) {
            (
                SortKey::Name { number: Some(x), folded: _ },
                SortKey::Name { number: Some(y), folded: _ },
            ) => x < y,
            (SortKey::Name { number: _, folded: fa }, SortKey::Name { number: _, folded: fb }) => {
                spec_text_less(fa@, fb@)
            },
            (SortKey::Time { at: ta }, SortKey::Time { at: tb }) => time_less(ta, tb),
            _ => false,
        }
    }

    /// This is the key of entry `e` under the algorithm.
    pub open spec fn is_key_of(self, alg: SortAlgorithm, e: FileEntryView) -> bool {
        match alg {
            SortAlgorithm::FileName => {
                &&& self matches SortKey::Name { number, folded }
                &&& number == spec_parse_number(spec_stem(e.name))
                &&& folded@ == lowercase_of(spec_stem(e.name))
            },
            SortAlgorithm::CreatedTime => self == (SortKey::Time { at: e.created }),
            SortAlgorithm::ModifiedTime => self == (SortKey::Time { at: e.modified }),
        }
    }

    /// Tells whether this key comes before `other`.
    pub fn is_before(&self, other: &SortKey) -> (r: bool)
        ensures
            r == self.precedes(*other),
    {
        match (self, other) {
            (
                SortKey::Name { number: na, folded: fa },
                SortKey::Name { number: nb, folded: fb },
            ) => {
                match (na, nb) {
                    (Some(x), Some(y)) => *x < *y,
                    _ => text_less(fa, fb),
                }
            },
            (SortKey::Time { at: ta }, SortKey::Time { at: tb }) => {
                match (ta, tb) {
                    (Some(x), Some(y)) => *x < *y,
                    (None, Some(_)) => true,
                    _ => false,
                }
            },
            _ => false,
        }
    }
}

/// [`SortKey::precedes`] as a relation to sort by.
pub open spec fn key_order() -> spec_fn(SortKey, SortKey) -> bool {
    |a: SortKey, b: SortKey| a.precedes(b)
}

/// The keys of two entries under one algorithm compare as the entries do.
pub proof fn lemma_keys_compare_as_entries(
    alg: SortAlgorithm,
    ka: SortKey,
    a: FileEntryView,
    kb: SortKey,
    b: FileEntryView,
)
    requires
        ka.is_key_of(alg, a),
        kb.is_key_of(alg, b),
    ensures
        ka.precedes(kb) == precedes(alg, a, b),
{
}

/// Works out the key by which `entry` is sorted under the algorithm.
pub fn sort_key(entry: &FileEntry, alg: SortAlgorithm) -> (key: SortKey)
    ensures
        key.is_key_of(alg, entry@),
{
    match alg {
        SortAlgorithm::FileName => {
            let stem = file_stem(entry.name.as_str());
            let number = parse_number(stem);
            let lowered = lowercase(stem);
            let folded = chars_of(lowered.as_str());
            SortKey::Name { number, folded }
        },
        SortAlgorithm::CreatedTime => SortKey::Time { at: entry.created },
        SortAlgorithm::ModifiedTime => SortKey::Time { at: entry.modified },
    }
}

/// Positions as mathematical integers.
pub open spec fn positions(order: Seq<usize>) -> Seq<int> {
    order.map_values(|i: usize| i as int)
}

/// Sorts by insertion. The result lists the positions of `keys` in sorted
/// order; keys that do not precede one another keep their order.
pub fn sort_order(keys: &Vec<SortKey>) -> (order: Vec<usize>)
    ensures
        positions(order@) == stable_order(keys@, key_order()),
{
    let mut order: Vec<usize> = Vec::new();
    let mut n: usize = 0;
    assert(keys@.take(0) =~= Seq::<SortKey>::empty());
    assert(positions(order@) =~= Seq::<int>::empty());
    while n < keys.len()
        invariant
            n <= keys.len(),
            positions(order@) == stable_order(keys@.take(n as int), key_order()),
        decreases keys.len() - n,
    {
        let ghost seen = keys@.take(n as int);
        let ghost head = positions(order@);
        let ghost now = keys@.take(n + 1);
        proof {
            lemma_order_is_permutation(seen, key_order());
            assert(now =~= seen.push(keys@[n as int]));
            lemma_stable_order_push(seen, keys@[n as int], key_order());
        }
        assert forall|t: int| 0 <= t < order.len() implies #[trigger] order@[t] < n by {
            assert(head[t] == order@[t]);
        }
        let mut j: usize = order.len();
        while j > 0 && keys[n].is_before(&keys[order[j - 1]])
            invariant
                j <= order.len(),
                n < keys.len(),
                order.len() == n,
                head == positions(order@),
                now == keys@.take(n + 1),
                is_permutation(head, n as nat),
                forall|t: int| 0 <= t < order.len() ==> #[trigger] order@[t] < n,
                forall|t: int|
                    j <= t < order.len() ==> key_order()(keys@[n as int], now[#[trigger] head[t]]),
            decreases j,
        {
            assert(0 <= head[j - 1] < n);
            j -= 1;
        }
        proof {
            if j > 0 {
                assert(0 <= head[j - 1] < n);
            }
            assert(is_insertion_point(now, head, keys@[n as int], key_order(), j as int));
            lemma_insertion_point(now, head, keys@[n as int], key_order());
        }
        order.insert(j, n);
        assert(positions(order@) =~= head.insert(j as int, n as int));
        n += 1;
    }
    assert(keys@.take(keys.len() as int) =~= keys@);
    order
}

/// The entries of `all` at the positions `picked`.
pub open spec fn selected(all: Seq<FileEntryView>, picked: Seq<usize>) -> Seq<FileEntryView> {
    picked.map_values(|p: usize| all[p as int])
}

/// Lists the images of a directory in the order in which they are shown.
///
/// `entries` is what the directory holds, in the order in which it was read;
/// an unreadable directory is an empty one. Kept are the regular files whose
/// name has the extension `jpg`, `jpeg`, `png` or `webp`, in any case. They
/// are sorted by the algorithm, and the result is their paths.
pub fn collect_image_paths(entries: &[FileEntry], alg: SortAlgorithm) -> (paths: Vec<String>)
    ensures
        texts(paths@) == image_paths(entry_views(entries@), alg),
        paths.len() <= entries.len(),
        forall|k: int|
            0 <= k < paths.len() ==> exists|i: int|
                0 <= i < entries.len() && (#[trigger] entries[i]).path@ == (#[trigger] paths[k])@
                    && entries[i].is_file && spec_image_name(entries[i].name@),
{
    let ghost all = entry_views(entries@);
    let mut picked: Vec<usize> = Vec::new();
    let mut keys: Vec<SortKey> = Vec::new();
    let mut i: usize = 0;
    proof {
        assert(all.take(0) =~= Seq::<FileEntryView>::empty());
        reveal(Seq::filter);
        assert(selected(all, picked@) =~= images(all.take(0)));
    }
    while i < entries.len()
        invariant
            i <= entries.len(),
            all == entry_views(entries@),
            picked.len() == keys.len(),
            forall|k: int| 0 <= k < picked.len() ==> #[trigger] picked@[k] < i,
            selected(all, picked@) == images(all.take(i as int)),
            forall|k: int|
                0 <= k < keys.len() ==> (#[trigger] keys@[k]).is_key_of(alg, all[picked@[k] as int]),
        decreases entries.len() - i,
    {
        let entry = &entries[i];
        proof {
            assert(all.take(i + 1) =~= all.take(i as int).push(all[i as int]));
            all.take(i as int).lemma_filter_push(all[i as int], image_filter());
        }
        if entry.is_file && is_image_name(entry.name.as_str()) {
            let key = sort_key(entry, alg);
            let ghost before = picked@;
            picked.push(i);
            keys.push(key);
            assert(selected(all, picked@) =~= selected(all, before).push(all[i as int]));
        }
        i += 1;
    }
    let ghost shown = images(all);
    assert(all.take(entries.len() as int) =~= all);
    let order = sort_order(&keys);
    proof {
        assert forall|a: int, b: int| 0 <= a < keys.len() && 0 <= b < keys.len() implies key_order()(
            keys@[a],
            keys@[b],
        ) == order_of(alg)(shown[a], shown[b]) by {
            lemma_keys_compare_as_entries(alg, keys@[a], shown[a], keys@[b], shown[b]);
        }
        lemma_order_by_relation(keys@, key_order(), shown, order_of(alg));
        lemma_order_is_permutation(shown, order_of(alg));
    }
    let mut paths: Vec<String> = Vec::new();
    let mut k: usize = 0;
    while k < order.len()
        invariant
            k <= order.len(),
            paths.len() == k,
            all == entry_views(entries@),
            shown == selected(all, picked@),
            shown == images(all),
            order.len() == picked.len(),
            forall|t: int| 0 <= t < picked.len() ==> #[trigger] picked@[t] < entries.len(),
            positions(order@) == stable_order(shown, order_of(alg)),
            is_permutation(positions(order@), shown.len()),
            forall|t: int| 0 <= t < k ==> (#[trigger] paths@[t])@ == image_paths(all, alg)[t],
        decreases order.len() - k,
    {
        assert(0 <= positions(order@)[k as int] < shown.len());
        let at = picked[order[k]];
        let path = entries[at].path.clone();
        proof {
            let sorted = image_list(all, alg);
            assert(sorted[k as int] == shown[positions(order@)[k as int]]);
            assert(shown[order@[k as int] as int] == all[at as int]);
            assert(image_paths(all, alg)[k as int] == sorted[k as int].path);
            assert(path@ == all[at as int].path);
        }
        paths.push(path);
        k += 1;
    }
    assert(texts(paths@) =~= image_paths(all, alg));
    proof {
        lemma_image_list_holds_the_images(all, alg);
        let list = image_list(all, alg);
        assert forall|k: int| 0 <= k < paths.len() implies exists|i: int|
            0 <= i < entries.len() && (#[trigger] entries[i]).path@ == (#[trigger] paths[k])@
                && entries[i].is_file && spec_image_name(entries[i].name@) by {
            assert(is_image(list[k]) && all.contains(list[k]));
            let i = choose|i: int| 0 <= i < all.len() && all[i] == list[k];
            assert(entries[i]@ == list[k]);
            assert(texts(paths@)[k] == list[k].path);
        }
    }
    paths
}

/// `index` is the first position of `list` that holds `target`.
pub open spec fn is_first_match(list: Seq<Seq<char>>, target: Seq<char>, index: int) -> bool {
    &&& 0 <= index < list.len()
    &&& list[index] == target
    &&& forall|j: int| 0 <= j < index ==> list[j] != target
}

/// The position at which the viewer starts in `list` when it was launched
/// with the file `target`: the first position that holds exactly that path,
/// or 0 where none does. Paths are compared character by character.
pub fn find_initial_index(list: &[String], target: &str) -> (index: usize)
    ensures
        texts(list@).contains(target@) ==> is_first_match(texts(list@), target@, index as int),
        !texts(list@).contains(target@) ==> index == 0,
{
    let wanted = target.to_owned();
    let ghost paths = texts(list@);
    let mut i: usize = 0;
    while i < list.len()
        invariant
            i <= list.len(),
            wanted@ == target@,
            paths == texts(list@),
            forall|j: int| 0 <= j < i ==> paths[j] != target@,
        decreases list.len() - i,
    {
        if list[i] == wanted {
            assert(paths[i as int] == target@);
            return i;
        }
        i += 1;
    }
    0
}

/// Where the viewer starts in `list`. Launched with a file, it starts at
/// that file if the list holds it; launched with a directory, or with a file
/// that the list does not hold, it starts at the first image.
pub fn resolve_initial_index(list: &[String], target: &str, target_is_file: bool) -> (index: usize)
    ensures
        target_is_file && texts(list@).contains(target@) ==> is_first_match(
            texts(list@),
            target@,
            index as int,
        ),
        !(target_is_file && texts(list@).contains(target@)) ==> index == 0,
{
    if target_is_file {
        find_initial_index(list, target)
    } else {
        0
    }
}

/// Of two entries at most one comes before the other, under any algorithm.
pub proof fn lemma_precedes_asymmetric(alg: SortAlgorithm, a: FileEntryView, b: FileEntryView)
    ensures
        !(precedes(alg, a, b) && precedes(alg, b, a)),
{
    lemma_text_less_asymmetric(
        lowercase_of(spec_stem(a.name)),
        lowercase_of(spec_stem(b.name)),
    );
}

/// The stems of all of `list` are numbers, or none of them is.
pub open spec fn stems_of_one_kind(list: Seq<FileEntryView>) -> bool {
    ||| forall|i: int|
        0 <= i < list.len() ==> spec_parse_number(spec_stem(#[trigger] list[i].name)) is Some
    ||| forall|i: int|
        0 <= i < list.len() ==> spec_parse_number(spec_stem(#[trigger] list[i].name)) is None
}

/// If `a` comes before `b`, then any third entry `m` comes after `a` or
/// before `b`. This holds of the two orders by time always, and of the order
/// by name where the three stems are all numbers or all not.
pub proof fn lemma_precedes_weak_order(
    alg: SortAlgorithm,
    a: FileEntryView,
    b: FileEntryView,
    m: FileEntryView,
)
    requires
        precedes(alg, a, b),
        alg == SortAlgorithm::FileName ==> stems_of_one_kind(seq![a, b, m]),
    ensures
        precedes(alg, a, m) || precedes(alg, m, b),
{
    if alg == SortAlgorithm::FileName {
        let list = seq![a, b, m];
        assert(list[0] == a && list[1] == b && list[2] == m);
        let fa = lowercase_of(spec_stem(a.name));
        let fb = lowercase_of(spec_stem(b.name));
        let fm = lowercase_of(spec_stem(m.name));
        if spec_parse_number(spec_stem(list[0].name)) is None {
            assert(spec_parse_number(spec_stem(list[1].name)) is None);
            assert(spec_parse_number(spec_stem(list[2].name)) is None);
            lemma_text_less_total(fa, fm);
            if fa == fm {
            } else if spec_text_less(fm, fa) {
                lemma_text_less_transitive(fm, fa, fb);
            }
        } else {
            assert(spec_parse_number(spec_stem(list[1].name)) is Some);
            assert(spec_parse_number(spec_stem(list[2].name)) is Some);
        }
    }
}

/// The image list holds the images of the directory and nothing else: every
/// entry of it is a regular file with a supported extension that the
/// directory lists, and every such file of the directory is in it, as often
/// as the directory lists it.
pub proof fn lemma_image_list_holds_the_images(entries: Seq<FileEntryView>, alg: SortAlgorithm)
    ensures
        forall|k: int|
            0 <= k < image_list(entries, alg).len() ==> is_image(
                #[trigger] image_list(entries, alg)[k],
            ) && entries.contains(image_list(entries, alg)[k]),
        forall|i: int|
            0 <= i < entries.len() && is_image(#[trigger] entries[i]) ==> image_list(
                entries,
                alg,
            ).contains(entries[i]),
        image_list(entries, alg).to_multiset() == images(entries).to_multiset(),
        image_list(entries, alg).len() == images(entries).len() <= entries.len(),
{
    let shown = images(entries);
    let list = image_list(entries, alg);
    lemma_arranged_same_items(shown, order_of(alg));
    lemma_order_is_permutation(shown, order_of(alg));
    entries.lemma_filter_len(image_filter());
    assert forall|k: int| 0 <= k < list.len() implies is_image(#[trigger] list[k])
        && entries.contains(list[k]) by {
        let at = stable_order(shown, order_of(alg))[k];
        assert(list[k] == shown[at]);
        entries.lemma_filter_pred(image_filter(), at);
        assert(shown.contains(shown[at]));
        entries.lemma_filter_contains_rev(image_filter(), shown[at]);
    }
    assert forall|i: int| 0 <= i < entries.len() && is_image(#[trigger] entries[i]) implies list.contains(
        entries[i],
    ) by {
        entries.lemma_filter_contains(image_filter(), i);
        vstd::seq_lib::to_multiset_contains(shown, entries[i]);
        vstd::seq_lib::to_multiset_contains(list, entries[i]);
    }
}

/// No image of the list comes before the image in front of it.
pub proof fn lemma_image_list_neighbours_in_order(entries: Seq<FileEntryView>, alg: SortAlgorithm)
    ensures
        forall|k: int|
            #![trigger image_list(entries, alg)[k]]
            0 <= k && k + 1 < image_list(entries, alg).len() ==> !precedes(
                alg,
                image_list(entries, alg)[k + 1],
                image_list(entries, alg)[k],
            ),
{
    let shown = images(entries);
    let list = image_list(entries, alg);
    let order = stable_order(shown, order_of(alg));
    lemma_order_is_permutation(shown, order_of(alg));
    assert forall|i: int, j: int|
        0 <= i < shown.len() && 0 <= j < shown.len() && order_of(alg)(
            shown[i],
            shown[j],
        ) implies !order_of(alg)(shown[j], shown[i]) by {
        lemma_precedes_asymmetric(alg, shown[i], shown[j]);
    }
    lemma_neighbours_in_order(shown, order_of(alg));
    assert forall|k: int| #![trigger list[k]] 0 <= k && k + 1 < list.len() implies !precedes(
        alg,
        list[k + 1],
        list[k],
    ) by {
        assert(!order_of(alg)(shown[order[k + 1]], shown[order[k]]));
    }
}

/// The algorithm orders the images as a strict weak order does: always where
/// it sorts by a time, and where it sorts by name if the stems are all
/// numbers or all not.
pub proof fn lemma_order_of_is_weak(shown: Seq<FileEntryView>, alg: SortAlgorithm)
    requires
        alg == SortAlgorithm::FileName ==> stems_of_one_kind(shown),
    ensures
        is_weak_order_on(shown, order_of(alg)),
{
    assert forall|i: int, j: int|
        0 <= i < shown.len() && 0 <= j < shown.len() && order_of(alg)(
            shown[i],
            shown[j],
        ) implies !order_of(alg)(shown[j], shown[i]) by {
        lemma_precedes_asymmetric(alg, shown[i], shown[j]);
    }
    assert forall|i: int, j: int, m: int|
        0 <= i < shown.len() && 0 <= j < shown.len() && 0 <= m < shown.len() && order_of(alg)(
            shown[i],
            shown[j],
        ) implies order_of(alg)(shown[i], shown[m]) || order_of(alg)(shown[m], shown[j]) by {
        if alg == SortAlgorithm::FileName {
            let three = seq![shown[i], shown[j], shown[m]];
            if spec_parse_number(spec_stem(shown[i].name)) is Some {
                assert(spec_parse_number(spec_stem(shown[j].name)) is Some);
                assert(spec_parse_number(spec_stem(shown[m].name)) is Some);
            } else {
                assert(spec_parse_number(spec_stem(shown[j].name)) is None);
                assert(spec_parse_number(spec_stem(shown[m].name)) is None);
            }
            assert(stems_of_one_kind(three));
        }
        lemma_precedes_weak_order(alg, shown[i], shown[j], shown[m]);
    }
}

/// Sorted by a time, the image list is ascending throughout: no image is
/// earlier than any image in front of it. Sorted by name, the same holds
/// where the stems of the images are all numbers or all not.
pub proof fn lemma_image_list_ascending(entries: Seq<FileEntryView>, alg: SortAlgorithm)
    requires
        alg == SortAlgorithm::FileName ==> stems_of_one_kind(images(entries)),
    ensures
        forall|k1: int, k2: int|
            #![trigger image_list(entries, alg)[k1], image_list(entries, alg)[k2]]
            0 <= k1 <= k2 < image_list(entries, alg).len() ==> !precedes(
                alg,
                image_list(entries, alg)[k2],
                image_list(entries, alg)[k1],
            ),
{
    let shown = images(entries);
    let list = image_list(entries, alg);
    let order = stable_order(shown, order_of(alg));
    lemma_order_is_permutation(shown, order_of(alg));
    lemma_order_of_is_weak(shown, alg);
    lemma_ascending(shown, order_of(alg));
    assert forall|k1: int, k2: int|
        #![trigger list[k1], list[k2]]
        0 <= k1 <= k2 < list.len() implies !precedes(alg, list[k2], list[k1]) by {
        if k1 < k2 {
            assert(!order_of(alg)(shown[order[k2]], shown[order[k1]]));
        } else {
            lemma_precedes_asymmetric(alg, list[k1], list[k1]);
        }
    }
}

/// The image list is the images in the order `stable_order` gives their
/// positions, and that order is stable: an image stands in front of one
/// that the directory lists before it only if the algorithm puts it first.
/// Images that the algorithm does not tell apart keep the directory's order.
pub proof fn lemma_image_list_is_stable(entries: Seq<FileEntryView>, alg: SortAlgorithm)
    ensures
        ({
            let shown = images(entries);
            let order = stable_order(shown, order_of(alg));
            &&& is_permutation(order, shown.len())
            &&& is_stable(shown, order, order_of(alg))
            &&& forall|k: int|
                0 <= k < shown.len() ==> #[trigger] image_list(entries, alg)[k] == shown[order[k]]
        }),
{
    let shown = images(entries);
    lemma_order_is_permutation(shown, order_of(alg));
    lemma_order_is_stable(shown, order_of(alg));
}

/// Where the algorithm orders the images as a strict weak order does, the
/// image list is the only arrangement of the images that is ascending and
/// stable: any order of their positions with both properties gives it.
pub proof fn lemma_image_list_is_the_stable_sort(
    entries: Seq<FileEntryView>,
    alg: SortAlgorithm,
    order: Seq<int>,
)
    requires
        is_permutation(order, images(entries).len()),
        is_ascending(images(entries), order, order_of(alg)),
        is_stable(images(entries), order, order_of(alg)),
    ensures
        image_list(entries, alg) == order.map_values(|i: int| images(entries)[i]),
{
    lemma_ascending_stable_is_sorted(images(entries), order_of(alg), order);
}

} // verus!
