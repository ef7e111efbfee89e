//! Browsing an archive: the order in which its files are shown, which of them are
//! selected, and which may be written to disk.

use vstd::prelude::*;
use vstd::utf8::encode_utf8;

use crate::archive::ArchiveEntry;
use crate::archive::ArchiveFileInfo;
use crate::archive::FileInfo;
use crate::archive::extension;
use crate::archive::infos_of;
use crate::collate::count_ahead;
use crate::collate::is_before;
use crate::collate::law_place_orders;
use crate::collate::place;
use crate::collate::stands_before;
use crate::order::law_ranking;
use crate::order::outranks;
use crate::order::rank;
use crate::order::ranking;
use crate::order::ranks;
use crate::text::after_last;
use crate::text::ahead_of_last;
use crate::text::before_last;
use crate::text::behind_last;
use crate::text::count_before;
use crate::text::count_of;
use crate::text::has_char;
use crate::text::last_position;
use crate::text::law_parts_at_last;
use crate::text::lemma_last_before;
use crate::text::same_text;

verus! {

/// A column of the list of files.
#[derive(Clone, Copy, Debug, PartialEq, Eq, Structural)]
pub enum SortCol {
    Name,
    Size,
    Packed,
    Ratio,
    Type,
}

/// Texts as bytes.
pub open spec fn bytes_of_texts(texts: Seq<Seq<char>>) -> Seq<Seq<u8>> {
    Seq::new(texts.len(), |i: int| encode_utf8(texts[i]))
}

/// The paths of files.
pub open spec fn paths_of(files: Seq<FileInfo>) -> Seq<Seq<char>> {
    Seq::new(files.len(), |i: int| files[i].path)
}

/// The extensions of files.
pub open spec fn extensions_of(files: Seq<FileInfo>) -> Seq<Seq<char>> {
    Seq::new(files.len(), |i: int| extension(files[i].path))
}

/// Where the compression ratio of the `i`th file stands in the order of all ratios;
/// zero, if that is not known.
pub open spec fn ratio_rank(ratios: Seq<i64>, i: int) -> i64 {
    if i < ratios.len() {
        ratios[i]
    } else {
        0
    }
}

/// The key of the `i`th file in a column.
pub open spec fn column_key(files: Seq<FileInfo>, ratios: Seq<i64>, col: SortCol, i: int) -> i128 {
    match col {
        SortCol::Name => place(bytes_of_texts(paths_of(files)), i) as i128,
        SortCol::Size => files[i].orig_size as i128,
        SortCol::Packed => files[i].packed_size as i128,
        SortCol::Ratio => ratio_rank(ratios, i) as i128,
        SortCol::Type => place(bytes_of_texts(extensions_of(files)), i) as i128,
    }
}

/// The keys of all files in a column.
pub open spec fn column_keys(files: Seq<FileInfo>, ratios: Seq<i64>, col: SortCol) -> Seq<i128> {
    Seq::new(files.len(), |i: int| column_key(files, ratios, col, i))
}

/// Keys by which what is to come first ranks first.
pub open spec fn shown_keys(order: Seq<usize>, keys: Seq<i128>, ascending: bool) -> Seq<i128> {
    Seq::new(
        order.len(),
        |p: int|
            if ascending {
                (-(keys[order[p] as int] as int)) as i128
            } else {
                keys[order[p] as int]
            },
    )
}

/// Files in the order of their keys; those with equal keys stay in the order in
/// which they are.
pub open spec fn resorted(order: Seq<usize>, keys: Seq<i128>, ascending: bool) -> Seq<usize> {
    let by = ranking(shown_keys(order, keys, ascending));
    Seq::new(order.len(), |p: int| order[by[p] as int])
}

/// Whether `order` holds each index below `n` once.
pub open spec fn lists_each(order: Seq<usize>, n: int) -> bool {
    &&& order.len() == n
    &&& forall|p: int| 0 <= p < n ==> #[trigger] order[p] < n
    &&& forall|p: int, q: int| 0 <= p < q < n ==> #[trigger] order[p] != #[trigger] order[q]
}

/// The indices below `n`, in order.
pub open spec fn counting(n: nat) -> Seq<usize> {
    Seq::new(n, |i: int| i as usize)
}

/// Sorting shows each file once.
pub proof fn law_sort_shows_each(order: Seq<usize>, keys: Seq<i128>, ascending: bool)
    requires
        lists_each(order, keys.len() as int),
        keys.len() <= usize::MAX,
    ensures
        lists_each(resorted(order, keys, ascending), keys.len() as int),
{
    let shown = shown_keys(order, keys, ascending);
    law_ranking(shown);
    let by = ranking(shown);
    let out = resorted(order, keys, ascending);
    let n = keys.len() as int;
    assert forall|p: int| 0 <= p < n implies #[trigger] out[p] < n by {
        assert(by[p] < n);
    }
    assert forall|p: int, q: int| 0 <= p < q < n implies #[trigger] out[p] != #[trigger] out[q] by {
        assert(outranks(shown, by[p] as int, by[q] as int));
        assert(by[p] < n && by[q] < n);
        if by[p] < by[q] {
            assert(order[by[p] as int] != order[by[q] as int]);
        } else {
            assert(order[by[q] as int] != order[by[p] as int]);
        }
    }
}

/// Sorting puts the files in the order of their keys: upwards or downwards, as asked
/// for.
pub proof fn law_sort_orders(order: Seq<usize>, keys: Seq<i128>, ascending: bool, p: int, q: int)
    requires
        lists_each(order, keys.len() as int),
        keys.len() <= usize::MAX,
        forall|i: int| 0 <= i < keys.len() ==> -0x1_0000_0000_0000_0000 <= #[trigger] keys[i],
        0 <= p < q < keys.len(),
    ensures
        ({
            let out = resorted(order, keys, ascending);
            if ascending {
                keys[out[p] as int] <= keys[out[q] as int]
            } else {
                keys[out[p] as int] >= keys[out[q] as int]
            }
        }),
{
    let shown = shown_keys(order, keys, ascending);
    law_ranking(shown);
    let by = ranking(shown);
    assert(outranks(shown, by[p] as int, by[q] as int));
    assert(by[p] < keys.len() && by[q] < keys.len());
    assert(order[by[p] as int] < keys.len() && order[by[q] as int] < keys.len());
    assert(keys[order[by[p] as int] as int] >= -0x1_0000_0000_0000_0000);
    assert(keys[order[by[q] as int] as int] >= -0x1_0000_0000_0000_0000);
}

/// Sorting leaves files with equal keys in the order in which they were shown.
pub proof fn law_sort_is_stable(
    order: Seq<usize>,
    keys: Seq<i128>,
    ascending: bool,
    a: int,
    b: int,
    p: int,
    q: int,
)
    requires
        lists_each(order, keys.len() as int),
        keys.len() <= usize::MAX,
        0 <= a < b < keys.len(),
        keys[order[a] as int] == keys[order[b] as int],
        0 <= p < keys.len(),
        0 <= q < keys.len(),
        resorted(order, keys, ascending)[p] == order[a],
        resorted(order, keys, ascending)[q] == order[b],
    ensures
        p < q,
{
    let shown = shown_keys(order, keys, ascending);
    law_ranking(shown);
    let by = ranking(shown);
    assert(by[p] < keys.len() && by[q] < keys.len());
    assert(order[by[p] as int] == order[a] && order[by[q] as int] == order[b]);
    assert(by[p] == a) by {
        if by[p] < a {
            assert(order[by[p] as int] != order[a]);
        } else if by[p] > a {
            assert(order[a] != order[by[p] as int]);
        }
    }
    assert(by[q] == b) by {
        if by[q] < b {
            assert(order[by[q] as int] != order[b]);
        } else if by[q] > b {
            assert(order[b] != order[by[q] as int]);
        }
    }
    if q < p {
        assert(outranks(shown, by[q] as int, by[p] as int));
    }
}

/// Sorted by name upwards, no file is shown behind one whose path stands before its
/// own.
pub proof fn law_names_ascend(
    files: Seq<FileInfo>,
    ratios: Seq<i64>,
    order: Seq<usize>,
    p: int,
    q: int,
)
    requires
        lists_each(order, files.len() as int),
        files.len() <= usize::MAX,
        0 <= p < q < files.len(),
    ensures
        ({
            let out = resorted(order, column_keys(files, ratios, SortCol::Name), true);
            !stands_before(
                encode_utf8(files[out[q] as int].path),
                encode_utf8(files[out[p] as int].path),
            )
        }),
{
    let keys = column_keys(files, ratios, SortCol::Name);
    let texts = bytes_of_texts(paths_of(files));
    let out = resorted(order, keys, true);
    law_sort_shows_each(order, keys, true);
    assert(out[p] < files.len() && out[q] < files.len());
    assert forall|i: int| 0 <= i < keys.len() implies -0x1_0000_0000_0000_0000 <= #[trigger] keys[i]
        && keys[i] == place(texts, i) by {
        lemma_place_bound(texts, texts[i], texts.len() as int);
    }
    law_sort_orders(order, keys, true, p, q);
    law_place_orders(texts, out[q] as int, out[p] as int);
}

proof fn lemma_place_bound(texts: Seq<Seq<u8>>, text: Seq<u8>, n: int)
    requires
        0 <= n,
    ensures
        count_ahead(texts, text, n) <= n,
    decreases n,
{
    if n > 0 {
        lemma_place_bound(texts, text, n - 1);
    }
}

/// The places of texts.
fn places(texts: &[String], Ghost(views): Ghost<Seq<Seq<char>>>) -> (keys: Vec<i128>)
    requires
        views.len() == texts@.len(),
        forall|i: int| 0 <= i < views.len() ==> (#[trigger] texts@[i])@ == views[i],
    ensures
        keys@.len() == views.len(),
        forall|i: int| 0 <= i < views.len() ==> #[trigger] keys@[i] == place(bytes_of_texts(views), i),
{
    let ghost all = bytes_of_texts(views);
    let n: usize = texts.len();
    let mut keys: Vec<i128> = Vec::with_capacity(n);
    let mut i: usize = 0;
    while i < n
        invariant
            i <= n,
            n == texts@.len(),
            n == views.len(),
            all == bytes_of_texts(views),
            forall|k: int| 0 <= k < views.len() ==> (#[trigger] texts@[k])@ == views[k],
            keys@.len() == i,
            forall|k: int| 0 <= k < i ==> #[trigger] keys@[k] == place(all, k),
        decreases n - i,
    {
        let mut count: usize = 0;
        let mut j: usize = 0;
        while j < n
            invariant
                j <= n,
                i < n,
                n == texts@.len(),
                n == views.len(),
                all == bytes_of_texts(views),
                forall|k: int| 0 <= k < views.len() ==> (#[trigger] texts@[k])@ == views[k],
                count <= j,
                count == count_ahead(all, all[i as int], j as int),
            decreases n - j,
        {
            if is_before(texts[j].as_str().as_bytes(), texts[i].as_str().as_bytes()) {
                count += 1;
            }
            j += 1;
        }
        keys.push(count as i128);
        i += 1;
    }
    keys
}

/// The keys of the files in a column.
fn keys_of(files: &[ArchiveFileInfo], ratios: &[i64], col: SortCol) -> (keys: Vec<i128>)
    ensures
        keys@ == column_keys(infos_of(files@), ratios@, col),
{
    let ghost infos = infos_of(files@);
    let n: usize = files.len();
    if col == SortCol::Name || col == SortCol::Type {
        let by_name = col == SortCol::Name;
        let ghost views = if by_name {
            paths_of(infos)
        } else {
            extensions_of(infos)
        };
        let mut texts: Vec<String> = Vec::with_capacity(n);
        let mut i: usize = 0;
        while i < n
            invariant
                i <= n,
                n == files@.len(),
                infos == infos_of(files@),
                views == (if by_name {
                    paths_of(infos)
                } else {
                    extensions_of(infos)
                }),
                texts@.len() == i,
                forall|k: int| 0 <= k < i ==> (#[trigger] texts@[k])@ == views[k],
            decreases n - i,
        {
            let text = if by_name {
                files[i].rel_path.as_str().to_owned()
            } else {
                files[i].ext()
            };
            texts.push(text);
            i += 1;
        }
        let keys = places(texts.as_slice(), Ghost(views));
        assert(keys@ =~= column_keys(infos, ratios@, col));
        return keys;
    }
    let mut keys: Vec<i128> = Vec::with_capacity(n);
    let mut i: usize = 0;
    while i < n
        invariant
            i <= n,
            n == files@.len(),
            infos == infos_of(files@),
            col != SortCol::Name,
            col != SortCol::Type,
            keys@.len() == i,
            forall|k: int| 0 <= k < i ==> #[trigger] keys@[k] == column_key(infos, ratios@, col, k),
        decreases n - i,
    {
        let key: i128 = if col == SortCol::Size {
            files[i].orig_size as i128
        } else if col == SortCol::Packed {
            files[i].packed_size as i128
        } else if i < ratios.len() {
            ratios[i] as i128
        } else {
            0
        };
        keys.push(key);
        i += 1;
    }
    assert(keys@ =~= column_keys(infos, ratios@, col));
    keys
}

/// Puts files in the order of their keys.
fn sort_again(order: &[usize], keys: &[i128], ascending: bool) -> (out: Vec<usize>)
    requires
        lists_each(order@, keys@.len() as int),
        forall|i: int| 0 <= i < keys@.len() ==> -0x1_0000_0000_0000_0000 <= #[trigger] keys@[i],
    ensures
        out@ == resorted(order@, keys@, ascending),
        lists_each(out@, keys@.len() as int),
{
    let n: usize = order.len();
    let mut shown: Vec<i128> = Vec::with_capacity(n);
    let mut p: usize = 0;
    while p < n
        invariant
            p <= n,
            n == order@.len(),
            lists_each(order@, keys@.len() as int),
            forall|i: int| 0 <= i < keys@.len() ==> -0x1_0000_0000_0000_0000 <= #[trigger] keys@[i],
            shown@.len() == p,
            forall|k: int|
                0 <= k < p ==> #[trigger] shown@[k] == shown_keys(order@, keys@, ascending)[k],
        decreases n - p,
    {
        assert(order@[p as int] < keys@.len());
        let key: i128 = keys[order[p]];
        shown.push(
            if ascending {
                -key
            } else {
                key
            },
        );
        p += 1;
    }
    assert(shown@ =~= shown_keys(order@, keys@, ascending));
    let by = rank(shown.as_slice());
    let mut out: Vec<usize> = Vec::with_capacity(n);
    let mut k: usize = 0;
    while k < n
        invariant
            k <= n,
            n == order@.len(),
            n == shown@.len(),
            by@ == ranking(shown@),
            ranks(shown@, 0, n as int, by@),
            shown@ == shown_keys(order@, keys@, ascending),
            out@.len() == k,
            forall|j: int|
                0 <= j < k ==> #[trigger] out@[j] == resorted(order@, keys@, ascending)[j],
        decreases n - k,
    {
        assert(by@[k as int] < n);
        out.push(order[by[k]]);
        k += 1;
    }
    assert(out@ =~= resorted(order@, keys@, ascending));
    proof {
        law_sort_shows_each(order@, keys@, ascending);
    }
    out
}

/// An archive that is being browsed.
#[derive(Clone, Debug)]
pub struct ArchiveView {
    root_name: String,
    files: Vec<ArchiveFileInfo>,
    ratios: Vec<i64>,
    selected: Vec<bool>,
    sort_col: SortCol,
    sort_asc: bool,
    sorted_idx: Vec<usize>,
}

/// The mathematical value of an [`ArchiveView`].
#[verifier::ext_equal]
pub struct Browsed {
    pub root: Seq<char>,
    pub files: Seq<FileInfo>,
    pub ratios: Seq<i64>,
    /// Whether each of the files is selected.
    pub selected: Seq<bool>,
    pub col: SortCol,
    pub ascending: bool,
    /// The files in the order in which they are shown.
    pub order: Seq<usize>,
}

impl View for ArchiveView {
    type V = Browsed;

    closed spec fn view(&self) -> Browsed {
        Browsed {
            root: self.root_name@,
            files: infos_of(self.files@),
            ratios: self.ratios@,
            selected: self.selected@,
            col: self.sort_col,
            ascending: self.sort_asc,
            order: self.sorted_idx@,
        }
    }
}

/// What is shown after sorting by a column in a direction.
pub open spec fn shown_by(b: Browsed, col: SortCol, ascending: bool) -> Browsed {
    Browsed {
        col,
        ascending,
        order: resorted(b.order, column_keys(b.files, b.ratios, col), ascending),
        ..b
    }
}

/// How many of the first `n` files are selected.
pub open spec fn selected_before(selected: Seq<bool>, n: int) -> nat
    decreases n,
{
    if n <= 0 {
        0
    } else {
        selected_before(selected, n - 1) + (if selected[n - 1] {
            1nat
        } else {
            0nat
        })
    }
}

/// How many files are selected.
pub open spec fn selected_count(selected: Seq<bool>) -> nat {
    selected_before(selected, selected.len() as int)
}

/// The selected ones of the first `n` files.
pub open spec fn selected_list(selected: Seq<bool>, n: int) -> Seq<usize>
    decreases n,
{
    if n <= 0 {
        Seq::empty()
    } else if selected[n - 1] {
        selected_list(selected, n - 1).push((n - 1) as usize)
    } else {
        selected_list(selected, n - 1)
    }
}

/// The sum of the sizes of the first `n` files.
pub open spec fn sum_orig(files: Seq<FileInfo>, n: int) -> nat
    decreases n,
{
    if n <= 0 {
        0
    } else {
        sum_orig(files, n - 1) + files[n - 1].orig_size as nat
    }
}

/// The sum of the packed sizes of the first `n` files.
pub open spec fn sum_packed(files: Seq<FileInfo>, n: int) -> nat
    decreases n,
{
    if n <= 0 {
        0
    } else {
        sum_packed(files, n - 1) + files[n - 1].packed_size as nat
    }
}

/// The sum of the sizes of the selected ones of the first `n` files.
pub open spec fn sum_selected(files: Seq<FileInfo>, selected: Seq<bool>, n: int) -> nat
    decreases n,
{
    if n <= 0 {
        0
    } else {
        sum_selected(files, selected, n - 1) + (if selected[n - 1] {
            files[n - 1].orig_size as nat
        } else {
            0nat
        })
    }
}

/// Nothing or everything selected.
pub open spec fn uniform(n: nat, on: bool) -> Seq<bool> {
    Seq::new(n, |i: int| on)
}

/// Only one file selected.
pub open spec fn only(n: nat, i: int) -> Seq<bool> {
    Seq::new(n, |k: int| k == i)
}

/// The selection after a click on a file: this file alone, or none if it was
/// selected alone.
pub open spec fn clicked(selected: Seq<bool>, i: int) -> Seq<bool> {
    if selected[i] && selected_count(selected) == 1 {
        uniform(selected.len(), false)
    } else {
        only(selected.len(), i)
    }
}

/// Whether there are files and all of them are selected.
pub open spec fn all_on(selected: Seq<bool>) -> bool {
    selected.len() > 0 && selected_count(selected) == selected.len()
}

fn filled(n: usize, on: bool) -> (out: Vec<bool>)
    ensures
        out@ == uniform(n as nat, on),
{
    let mut out: Vec<bool> = Vec::with_capacity(n);
    let mut i: usize = 0;
    while i < n
        invariant
            i <= n,
            out@.len() == i,
            forall|k: int| 0 <= k < i ==> out@[k] == on,
        decreases n - i,
    {
        out.push(on);
        i += 1;
    }
    assert(out@ =~= uniform(n as nat, on));
    out
}

impl ArchiveView {
    /// Whether each file is shown once, and has a mark for being selected.
    pub open spec fn wf(&self) -> bool {
        &&& lists_each(self@.order, self@.files.len() as int)
        &&& self@.selected.len() == self@.files.len()
        &&& self@.files.len() <= usize::MAX
    }

    /// A view of the files of an archive, by name, with none selected. `ratios` are
    /// the places of the compression ratios in the order of all ratios.
    pub fn new(
        root_name: String,
        files: Vec<ArchiveFileInfo>,
        ratios: Vec<i64>,
    ) -> (view: ArchiveView)
        ensures
            view.wf(),
            view@ == shown_by(
                (Browsed {
                    root: root_name@,
                    files: infos_of(files@),
                    ratios: ratios@,
                    selected: uniform(files@.len(), false),
                    col: SortCol::Name,
                    ascending: true,
                    order: counting(files@.len()),
                }),
                SortCol::Name,
                true,
            ),
    {
        let n: usize = files.len();
        let mut sorted_idx: Vec<usize> = Vec::with_capacity(n);
        let mut i: usize = 0;
        while i < n
            invariant
                i <= n,
                sorted_idx@.len() == i,
                forall|k: int| 0 <= k < i ==> #[trigger] sorted_idx@[k] == k,
            decreases n - i,
        {
            sorted_idx.push(i);
            i += 1;
        }
        assert(sorted_idx@ =~= counting(files@.len()));
        let selected = filled(n, false);
        let mut view = ArchiveView {
            root_name,
            files,
            ratios,
            selected,
            sort_col: SortCol::Name,
            sort_asc: true,
            sorted_idx,
        };
        view.apply_sort();
        view
    }

    /// Sorts anew by the current column.
    fn apply_sort(&mut self)
        requires
            old(self).wf(),
        ensures
            final(self).wf(),
            final(self)@ == shown_by(old(self)@, old(self)@.col, old(self)@.ascending),
    {
        let keys = keys_of(self.files.as_slice(), self.ratios.as_slice(), self.sort_col);
        proof {
            lemma_keys_bounded(self@.files, self@.ratios, self@.col);
        }
        self.sorted_idx = sort_again(self.sorted_idx.as_slice(), keys.as_slice(), self.sort_asc);
    }

    /// Sorts by a column: upwards, or the other way round if it is the current one.
    pub fn sort_by(&mut self, col: SortCol)
        requires
            old(self).wf(),
        ensures
            final(self).wf(),
            final(self)@ == shown_by(
                old(self)@,
                col,
                if old(self)@.col == col {
                    !old(self)@.ascending
                } else {
                    true
                },
            ),
    {
        if self.sort_col == col {
            self.sort_asc = !self.sort_asc;
        } else {
            self.sort_col = col;
            self.sort_asc = true;
        }
        self.apply_sort();
    }

    /// The name of the folder.
    pub fn root_name(&self) -> (root: &str)
        ensures
            root@ == self@.root,
    {
        self.root_name.as_str()
    }

    /// What is told of the files.
    pub fn files(&self) -> (files: &[ArchiveFileInfo])
        ensures
            infos_of(files@) == self@.files,
    {
        self.files.as_slice()
    }

    /// The files in the order in which they are shown.
    pub fn order(&self) -> (order: &[usize])
        ensures
            order@ == self@.order,
    {
        self.sorted_idx.as_slice()
    }

    /// The column by which the files are sorted.
    pub fn sort_col(&self) -> (col: SortCol)
        ensures
            col == self@.col,
    {
        self.sort_col
    }

    /// Whether they are sorted upwards.
    pub fn sort_asc(&self) -> (ascending: bool)
        ensures
            ascending == self@.ascending,
    {
        self.sort_asc
    }

    /// Whether a file is selected.
    pub fn is_selected(&self, i: usize) -> (yes: bool)
        requires
            i < self@.selected.len(),
        ensures
            yes == self@.selected[i as int],
    {
        self.selected[i]
    }

    /// How many files are selected.
    pub fn selected_len(&self) -> (count: usize)
        ensures
            count == selected_count(self@.selected),
    {
        let mut count: usize = 0;
        let mut i: usize = 0;
        while i < self.selected.len()
            invariant
                i <= self.selected@.len(),
                count <= i,
                count == selected_before(self.selected@, i as int),
            decreases self.selected@.len() - i,
        {
            if self.selected[i] {
                count += 1;
            }
            i += 1;
        }
        count
    }

    /// Which files are selected, in the order of the archive.
    pub fn selected(&self) -> (list: Vec<usize>)
        ensures
            list@ == selected_list(self@.selected, self@.selected.len() as int),
    {
        let mut list: Vec<usize> = Vec::new();
        let mut i: usize = 0;
        while i < self.selected.len()
            invariant
                i <= self.selected@.len(),
                list@ == selected_list(self.selected@, i as int),
            decreases self.selected@.len() - i,
        {
            if self.selected[i] {
                list.push(i);
            }
            i += 1;
        }
        list
    }

    /// Whether there are files and all of them are selected.
    pub fn all_selected(&self) -> (yes: bool)
        ensures
            yes == all_on(self@.selected),
    {
        self.selected.len() > 0 && self.selected_len() == self.selected.len()
    }

    /// Selects what a click on a file selects.
    pub fn click(&mut self, i: usize)
        requires
            old(self).wf(),
            i < old(self)@.files.len(),
        ensures
            final(self).wf(),
            final(self)@ == (Browsed {
                selected: clicked(old(self)@.selected, i as int),
                ..old(self)@
            }),
    {
        let alone = self.selected[i] && self.selected_len() == 1;
        let mut marks = filled(self.selected.len(), false);
        if !alone {
            marks.set(i, true);
            assert(marks@ =~= only(self.selected@.len(), i as int));
        }
        self.selected = marks;
    }

    /// Adds a file to the selection, or takes it out.
    pub fn toggle(&mut self, i: usize)
        requires
            old(self).wf(),
            i < old(self)@.files.len(),
        ensures
            final(self).wf(),
            final(self)@ == (Browsed {
                selected: old(self)@.selected.update(i as int, !old(self)@.selected[i as int]),
                ..old(self)@
            }),
    {
        let on: bool = self.selected[i];
        self.selected.set(i, !on);
    }

    /// Selects all files, or none if all are selected.
    pub fn toggle_all(&mut self)
        requires
            old(self).wf(),
        ensures
            final(self).wf(),
            final(self)@ == (Browsed {
                selected: uniform(
                    old(self)@.selected.len(),
                    !all_on(old(self)@.selected),
                ),
                ..old(self)@
            }),
    {
        let on: bool = !self.all_selected();
        self.selected = filled(self.selected.len(), on);
    }

    /// The size of all files together.
    pub fn total_orig(&self) -> (total: u128)
        ensures
            total == sum_orig(self@.files, self@.files.len() as int),
    {
        let mut total: u128 = 0;
        let mut i: usize = 0;
        while i < self.files.len()
            invariant
                i <= self.files@.len(),
                total <= i * 0xFFFF_FFFF_FFFF_FFFF,
                total == sum_orig(self@.files, i as int),
            decreases self.files@.len() - i,
        {
            total += self.files[i].orig_size as u128;
            i += 1;
        }
        total
    }

    /// The packed size of all files together.
    pub fn total_packed(&self) -> (total: u128)
        ensures
            total == sum_packed(self@.files, self@.files.len() as int),
    {
        let mut total: u128 = 0;
        let mut i: usize = 0;
        while i < self.files.len()
            invariant
                i <= self.files@.len(),
                total <= i * 0xFFFF_FFFF_FFFF_FFFF,
                total == sum_packed(self@.files, i as int),
            decreases self.files@.len() - i,
        {
            total += self.files[i].packed_size as u128;
            i += 1;
        }
        total
    }

    /// The size of the selected files together.
    pub fn selected_orig(&self) -> (total: u128)
        requires
            self.wf(),
        ensures
            total == sum_selected(self@.files, self@.selected, self@.files.len() as int),
    {
        let mut total: u128 = 0;
        let mut i: usize = 0;
        while i < self.files.len()
            invariant
                i <= self.files@.len(),
                self.wf(),
                total <= i * 0xFFFF_FFFF_FFFF_FFFF,
                total == sum_selected(self@.files, self@.selected, i as int),
            decreases self.files@.len() - i,
        {
            if self.selected[i] {
                total += self.files[i].orig_size as u128;
            }
            i += 1;
        }
        total
    }
}

proof fn lemma_keys_bounded(files: Seq<FileInfo>, ratios: Seq<i64>, col: SortCol)
    requires
        files.len() <= usize::MAX,
    ensures
        forall|i: int|
            0 <= i < files.len() ==> -0x1_0000_0000_0000_0000 <= #[trigger] column_keys(
                files,
                ratios,
                col,
            )[i],
{
    assert forall|i: int| 0 <= i < files.len() implies -0x1_0000_0000_0000_0000
        <= #[trigger] column_keys(files, ratios, col)[i] by {
        let names = bytes_of_texts(paths_of(files));
        let types = bytes_of_texts(extensions_of(files));
        lemma_place_bound(names, names[i], names.len() as int);
        lemma_place_bound(types, types[i], types.len() as int);
    }
}

/// What kind of contents a file has, going by its extension.
#[derive(Clone, Copy, Debug, PartialEq, Eq, Structural)]
pub enum FileKind {
    Code,
    Text,
    Image,
    Audio,
    Video,
    Pdf,
    Packed,
    Data,
    Other,
}

/// The kind of file that an extension stands for.
pub open spec fn kind_named(ext: Seq<char>) -> FileKind {
    if ext == "rs"@
        || ext == "py"@
        || ext == "js"@
        || ext == "ts"@
        || ext == "go"@
        || ext == "c"@
        || ext == "cpp"@
        || ext == "h"@
        || ext == "java"@
        || ext == "kt"@ {
        FileKind::Code
    } else if ext == "txt"@
        || ext == "md"@
        || ext == "rst"@
        || ext == "log"@ {
        FileKind::Text
    } else if ext == "png"@
        || ext == "jpg"@
        || ext == "jpeg"@
        || ext == "gif"@
        || ext == "bmp"@
        || ext == "svg"@
        || ext == "webp"@ {
        FileKind::Image
    } else if ext == "mp3"@
        || ext == "wav"@
        || ext == "flac"@
        || ext == "ogg"@
        || ext == "aac"@ {
        FileKind::Audio
    } else if ext == "mp4"@
        || ext == "mkv"@
        || ext == "avi"@
        || ext == "mov"@ {
        FileKind::Video
    } else if ext == "pdf"@ {
        FileKind::Pdf
    } else if ext == "zip"@
        || ext == "tar"@
        || ext == "gz"@
        || ext == "7z"@
        || ext == "axm"@ {
        FileKind::Packed
    } else if ext == "json"@
        || ext == "yaml"@
        || ext == "yml"@
        || ext == "toml"@
        || ext == "xml"@
        || ext == "csv"@ {
        FileKind::Data
    } else {
        FileKind::Other
    }
}

/// The sign that a kind of file is shown with.
pub open spec fn kind_icon(kind: FileKind) -> Seq<char> {
    match kind {
        FileKind::Code => "◈"@,
        FileKind::Text => "≡"@,
        FileKind::Image => "⬡"@,
        FileKind::Audio => "♪"@,
        FileKind::Video => "▶"@,
        FileKind::Pdf => "⊞"@,
        FileKind::Packed => "⊟"@,
        FileKind::Data => "{}"@,
        FileKind::Other => "·"@,
    }
}

/// The kind of file that an extension stands for.
pub fn kind_of(ext: &str) -> (kind: FileKind)
    ensures
        kind == kind_named(ext@),
{
    if same_text(ext, "rs")
        || same_text(ext, "py")
        || same_text(ext, "js")
        || same_text(ext, "ts")
        || same_text(ext, "go")
        || same_text(ext, "c")
        || same_text(ext, "cpp")
        || same_text(ext, "h")
        || same_text(ext, "java")
        || same_text(ext, "kt") {
        FileKind::Code
    } else if same_text(ext, "txt")
        || same_text(ext, "md")
        || same_text(ext, "rst")
        || same_text(ext, "log") {
        FileKind::Text
    } else if same_text(ext, "png")
        || same_text(ext, "jpg")
        || same_text(ext, "jpeg")
        || same_text(ext, "gif")
        || same_text(ext, "bmp")
        || same_text(ext, "svg")
        || same_text(ext, "webp") {
        FileKind::Image
    } else if same_text(ext, "mp3")
        || same_text(ext, "wav")
        || same_text(ext, "flac")
        || same_text(ext, "ogg")
        || same_text(ext, "aac") {
        FileKind::Audio
    } else if same_text(ext, "mp4")
        || same_text(ext, "mkv")
        || same_text(ext, "avi")
        || same_text(ext, "mov") {
        FileKind::Video
    } else if same_text(ext, "pdf") {
        FileKind::Pdf
    } else if same_text(ext, "zip")
        || same_text(ext, "tar")
        || same_text(ext, "gz")
        || same_text(ext, "7z")
        || same_text(ext, "axm") {
        FileKind::Packed
    } else if same_text(ext, "json")
        || same_text(ext, "yaml")
        || same_text(ext, "yml")
        || same_text(ext, "toml")
        || same_text(ext, "xml")
        || same_text(ext, "csv") {
        FileKind::Data
    } else {
        FileKind::Other
    }
}

/// The sign that a file with the given extension is shown with.
pub fn file_icon(ext: &str) -> (icon: &'static str)
    ensures
        icon@ == kind_icon(kind_named(ext@)),
{
    match kind_of(ext) {
        FileKind::Code => "◈",
        FileKind::Text => "≡",
        FileKind::Image => "⬡",
        FileKind::Audio => "♪",
        FileKind::Video => "▶",
        FileKind::Pdf => "⊞",
        FileKind::Packed => "⊟",
        FileKind::Data => "{}",
        FileKind::Other => "·",
    }
}

/// How many folders deep a path lies.
pub fn folder_depth(path: &str) -> (depth: usize)
    ensures
        depth == count_before(path@, '/', path@.len() as int),
{
    count_of(path, '/')
}

/// The name of a file: the last part of its path.
pub fn file_name(path: &str) -> (name: &str)
    ensures
        name@ == behind_last(path@, '/'),
{
    after_last(path, '/')
}

/// The folder of a file: its path without the last part.
pub fn parent_folder(path: &str) -> (parent: &str)
    ensures
        parent@ == ahead_of_last(path@, '/'),
{
    before_last(path, '/')
}

/// Whether a path holds two dots in a row, with which it could lead out of the folder
/// that it is written to.
pub open spec fn leads_out(path: Seq<char>) -> bool {
    exists|i: int| 0 <= i < path.len() - 1 && #[trigger] path[i] == '.' && path[i + 1] == '.'
}

/// Whether a path could lead out of the folder that it is written to.
pub fn is_unsafe_path(path: &str) -> (yes: bool)
    ensures
        yes == leads_out(path@),
{
    let len: usize = path.unicode_len();
    let mut i: usize = 1;
    while i < len
        invariant
            1 <= i,
            len == path@.len(),
            forall|k: int| 0 <= k < i - 1 ==> !(#[trigger] path@[k] == '.' && path@[k + 1] == '.'),
            len >= 1 ==> i <= len,
        decreases len - i,
    {
        if path.get_char(i - 1) == '.' && path.get_char(i) == '.' {
            assert(path@[i - 1] == '.' && path@[i - 1 + 1] == '.');
            return true;
        }
        i += 1;
    }
    false
}

/// Those of the first `n` chosen indices that name an entry whose path does not lead
/// out of the folder.
pub open spec fn writable(paths: Seq<Seq<char>>, chosen: Seq<usize>, n: int) -> Seq<usize>
    decreases n,
{
    if n <= 0 {
        Seq::empty()
    } else if chosen[n - 1] < paths.len() && !leads_out(paths[chosen[n - 1] as int]) {
        writable(paths, chosen, n - 1).push(chosen[n - 1])
    } else {
        writable(paths, chosen, n - 1)
    }
}

/// The paths of entries.
pub open spec fn entry_paths(entries: Seq<ArchiveEntry>) -> Seq<Seq<char>> {
    Seq::new(entries.len(), |i: int| entries[i].rel_path@)
}

/// Which of the chosen entries are written to disk: those that exist, and whose paths
/// do not lead out of the folder.
pub fn writable_entries(entries: &[ArchiveEntry], chosen: &[usize]) -> (list: Vec<usize>)
    ensures
        list@ == writable(entry_paths(entries@), chosen@, chosen@.len() as int),
{
    let ghost paths = entry_paths(entries@);
    let mut list: Vec<usize> = Vec::new();
    let mut n: usize = 0;
    while n < chosen.len()
        invariant
            n <= chosen@.len(),
            paths == entry_paths(entries@),
            list@ == writable(paths, chosen@, n as int),
        decreases chosen@.len() - n,
    {
        let i: usize = chosen[n];
        if i < entries.len() && !is_unsafe_path(entries[i].rel_path.as_str()) {
            list.push(i);
        }
        n += 1;
    }
    list
}

/// Finds the first entry whose path leads out of the folder: those before it are
/// written, and it stops the rest.
pub fn first_unsafe(entries: &[ArchiveEntry]) -> (r: Option<usize>)
    ensures
        match r {
            Some(j) => j < entries@.len() && leads_out(entries@[j as int].rel_path@) && forall|
                i: int,
            |
                0 <= i < j ==> !leads_out(#[trigger] entries@[i].rel_path@),
            None => forall|i: int|
                0 <= i < entries@.len() ==> !leads_out(#[trigger] entries@[i].rel_path@),
        },
{
    let mut j: usize = 0;
    while j < entries.len()
        invariant
            j <= entries@.len(),
            forall|i: int| 0 <= i < j ==> !leads_out(#[trigger] entries@[i].rel_path@),
        decreases entries@.len() - j,
    {
        if is_unsafe_path(entries[j].rel_path.as_str()) {
            return Some(j);
        }
        j += 1;
    }
    None
}

/// Whether the name of a file ends in the extension of archives; a name that begins
/// with its only dot has no extension.
pub open spec fn has_archive_extension(name: Seq<char>) -> bool {
    last_position(name, '.') matches Some(i) && i > 0 && behind_last(name, '.') == "axm"@
}

/// Whether a file that is dropped on the window is opened as an archive, going by its
/// name; any other is compressed.
pub fn opens_as_archive(name: &str) -> (yes: bool)
    ensures
        yes == has_archive_extension(name@),
{
    proof {
        lemma_last_before(name@, '.', name@.len() as int);
    }
    has_char(name, '.') && !before_last(name, '.').is_empty() && same_text(
        after_last(name, '.'),
        "axm",
    )
}

/// The keys of paths: their places among all.
pub open spec fn path_keys(paths: Seq<Seq<char>>) -> Seq<i128> {
    Seq::new(paths.len(), |i: int| place(bytes_of_texts(paths), i) as i128)
}

/// The order in which the files of a folder are packed: by path.
pub fn path_order(entries: &[ArchiveEntry]) -> (order: Vec<usize>)
    ensures
        lists_each(order@, entries@.len() as int),
        order@ == resorted(counting(entries@.len()), path_keys(entry_paths(entries@)), true),
        forall|p: int, q: int|
            0 <= p < q < entries@.len() ==> !stands_before(
                encode_utf8(entries@[#[trigger] order@[q] as int].rel_path@),
                encode_utf8(entries@[#[trigger] order@[p] as int].rel_path@),
            ),
{
    let ghost paths = entry_paths(entries@);
    let ghost all = bytes_of_texts(paths);
    let n: usize = entries.len();
    let mut texts: Vec<String> = Vec::with_capacity(n);
    let mut counted: Vec<usize> = Vec::with_capacity(n);
    let mut i: usize = 0;
    while i < n
        invariant
            i <= n,
            n == entries@.len(),
            paths == entry_paths(entries@),
            texts@.len() == i,
            counted@.len() == i,
            forall|k: int| 0 <= k < i ==> (#[trigger] texts@[k])@ == paths[k],
            forall|k: int| 0 <= k < i ==> #[trigger] counted@[k] == k,
        decreases n - i,
    {
        texts.push(entries[i].rel_path.as_str().to_owned());
        counted.push(i);
        i += 1;
    }
    assert(counted@ =~= counting(entries@.len()));
    let keys = places(texts.as_slice(), Ghost(paths));
    assert(keys@ =~= path_keys(paths));
    assert forall|k: int| 0 <= k < keys@.len() implies -0x1_0000_0000_0000_0000
        <= #[trigger] keys@[k] by {
        assert(keys@[k] == place(all, k));
    }
    let order = sort_again(counted.as_slice(), keys.as_slice(), true);
    assert forall|p: int, q: int| 0 <= p < q < n implies !stands_before(
        encode_utf8(entries@[#[trigger] order@[q] as int].rel_path@),
        encode_utf8(entries@[#[trigger] order@[p] as int].rel_path@),
    ) by {
        law_sort_orders(counted@, keys@, true, p, q);
        assert(order@[p] < n && order@[q] < n);
        assert(keys@[order@[p] as int] == place(all, order@[p] as int));
        assert(keys@[order@[q] as int] == place(all, order@[q] as int));
        law_place_orders(all, order@[q] as int, order@[p] as int);
    }
    order
}

/// Sorting changes nothing but the order, the column and the direction, and shows each
/// file once.
pub proof fn law_sort_keeps(b: Browsed, col: SortCol, ascending: bool)
    requires
        lists_each(b.order, b.files.len() as int),
        b.files.len() <= usize::MAX,
    ensures
        ({
            let shown = shown_by(b, col, ascending);
            &&& shown.root == b.root
            &&& shown.files == b.files
            &&& shown.ratios == b.ratios
            &&& shown.selected == b.selected
            &&& shown.col == col
            &&& shown.ascending == ascending
            &&& shown.order.len() == b.files.len()
            &&& shown.order.no_duplicates()
            &&& forall|p: int|
                0 <= p < shown.order.len() ==> #[trigger] shown.order[p] < b.files.len()
        }),
{
    let keys = column_keys(b.files, b.ratios, col);
    law_sort_shows_each(b.order, keys, ascending);
    let out = resorted(b.order, keys, ascending);
    assert forall|p: int, q: int| 0 <= p < out.len() && 0 <= q < out.len() && p != q implies out[p]
        != out[q] by {
        if p < q {
            assert(out[p] != out[q]);
        } else {
            assert(out[q] != out[p]);
        }
    }
}

/// A file shown before another does not come behind it in the column: sorted upwards
/// it has no later path, no greater size, no greater packed size, no higher ratio, no
/// later extension than the other; sorted downwards, the other way round. A file whose
/// ratio is not known counts as if it were zero.
pub proof fn law_shown_in_order(b: Browsed, col: SortCol, ascending: bool, p: int, q: int)
    requires
        lists_each(b.order, b.files.len() as int),
        b.files.len() <= usize::MAX,
        0 <= p < q < b.files.len(),
    ensures
        ({
            let order = shown_by(b, col, ascending).order;
            let (i, j) = if ascending {
                (order[p] as int, order[q] as int)
            } else {
                (order[q] as int, order[p] as int)
            };
            let x = b.files[i];
            let y = b.files[j];
            match col {
                SortCol::Name => !stands_before(encode_utf8(y.path), encode_utf8(x.path)),
                SortCol::Size => x.orig_size <= y.orig_size,
                SortCol::Packed => x.packed_size <= y.packed_size,
                SortCol::Ratio => (if i < b.ratios.len() {
                    b.ratios[i]
                } else {
                    0
                }) <= (if j < b.ratios.len() {
                    b.ratios[j]
                } else {
                    0
                }),
                SortCol::Type => !stands_before(
                    encode_utf8(extension(y.path)),
                    encode_utf8(extension(x.path)),
                ),
            }
        }),
{
    let keys = column_keys(b.files, b.ratios, col);
    let order = shown_by(b, col, ascending).order;
    law_sort_keeps(b, col, ascending);
    lemma_keys_bounded(b.files, b.ratios, col);
    law_sort_orders(b.order, keys, ascending, p, q);
    assert(order[p] < b.files.len() && order[q] < b.files.len());
    let (i, j) = if ascending {
        (order[p] as int, order[q] as int)
    } else {
        (order[q] as int, order[p] as int)
    };
    assert(keys[i] <= keys[j]);
    let names = bytes_of_texts(paths_of(b.files));
    let types = bytes_of_texts(extensions_of(b.files));
    law_place_orders(names, j, i);
    law_place_orders(types, j, i);
    lemma_place_bound(names, names[i], names.len() as int);
    lemma_place_bound(names, names[j], names.len() as int);
    lemma_place_bound(types, types[i], types.len() as int);
    lemma_place_bound(types, types[j], types.len() as int);
}

/// Files that do not differ in the column stay in the order in which they were shown.
pub proof fn law_shown_in_former_order(
    b: Browsed,
    col: SortCol,
    ascending: bool,
    former: (int, int),
    p: int,
    q: int,
)
    requires
        lists_each(b.order, b.files.len() as int),
        b.files.len() <= usize::MAX,
        0 <= former.0 < former.1 < b.files.len(),
        0 <= p < b.files.len(),
        0 <= q < b.files.len(),
        shown_by(b, col, ascending).order[p] == b.order[former.0],
        shown_by(b, col, ascending).order[q] == b.order[former.1],
        ({
            let i = b.order[former.0] as int;
            let j = b.order[former.1] as int;
            match col {
                SortCol::Name => b.files[i].path == b.files[j].path,
                SortCol::Size => b.files[i].orig_size == b.files[j].orig_size,
                SortCol::Packed => b.files[i].packed_size == b.files[j].packed_size,
                SortCol::Ratio => i < b.ratios.len() && j < b.ratios.len() && b.ratios[i]
                    == b.ratios[j],
                SortCol::Type => extension(b.files[i].path) == extension(b.files[j].path),
            }
        }),
    ensures
        p < q,
{
    let keys = column_keys(b.files, b.ratios, col);
    let i = b.order[former.0] as int;
    let j = b.order[former.1] as int;
    law_place_orders(bytes_of_texts(paths_of(b.files)), i, j);
    law_place_orders(bytes_of_texts(extensions_of(b.files)), i, j);
    law_sort_is_stable(b.order, keys, ascending, former.0, former.1, p, q);
}

/// The selected files are listed in the order of the archive: those that are selected,
/// and no others.
pub proof fn law_selected_listed(selected: Seq<bool>, n: int)
    requires
        0 <= n <= selected.len() <= usize::MAX,
    ensures
        selected_list(selected, n) == Seq::new(n as nat, |i: int| i as usize).filter(
            |i: usize| selected[i as int],
        ),
    decreases n,
{
    reveal(Seq::filter);
    let all = Seq::new(n as nat, |i: int| i as usize);
    if n > 0 {
        law_selected_listed(selected, n - 1);
        assert(all.drop_last() =~= Seq::new((n - 1) as nat, |i: int| i as usize));
    }
}

proof fn lemma_selected_before(selected: Seq<bool>, n: int)
    requires
        0 <= n <= selected.len(),
    ensures
        selected_before(selected, n) == selected.take(n).to_multiset().count(true),
        selected_before(selected, n) <= n,
        selected_before(selected, n) == n <==> forall|k: int| 0 <= k < n ==> #[trigger] selected[k],
    decreases n,
{
    broadcast use vstd::seq_lib::group_to_multiset_ensures;

    if n == 0 {
        assert(selected.take(0) =~= Seq::empty());
        assert(!selected.take(0).contains(true));
    } else {
        lemma_selected_before(selected, n - 1);
        assert(selected.take(n) =~= selected.take(n - 1).push(selected[n - 1]));
        if selected_before(selected, n) == n {
            assert forall|k: int| 0 <= k < n implies #[trigger] selected[k] by {
                if k < n - 1 {
                    assert(selected_before(selected, n - 1) == n - 1);
                }
            }
        }
    }
}

/// As many files are selected as there are marks; all of them are if each is.
pub proof fn law_selected_counted(selected: Seq<bool>)
    ensures
        selected_count(selected) == selected.to_multiset().count(true),
        all_on(selected) <==> selected.len() > 0 && forall|k: int|
            0 <= k < selected.len() ==> #[trigger] selected[k],
{
    lemma_selected_before(selected, selected.len() as int);
    assert(selected.take(selected.len() as int) =~= selected);
}

proof fn lemma_selected_alone(selected: Seq<bool>, i: int, n: int)
    requires
        0 <= i < selected.len(),
        0 <= n <= selected.len(),
        selected[i],
    ensures
        selected_before(selected, n) >= (if i < n {
            1nat
        } else {
            0nat
        }),
        (forall|k: int| 0 <= k < n && k != i ==> !#[trigger] selected[k]) <==> selected_before(
            selected,
            n,
        ) == (if i < n {
            1nat
        } else {
            0nat
        }),
    decreases n,
{
    if n > 0 {
        lemma_selected_alone(selected, i, n - 1);
        if n - 1 != i && selected[n - 1] {
            assert(!(forall|k: int| 0 <= k < n && k != i ==> !#[trigger] selected[k]));
        }
        if forall|k: int| 0 <= k < n && k != i ==> !#[trigger] selected[k] {
            assert(forall|k: int| 0 <= k < n - 1 && k != i ==> !#[trigger] selected[k]);
        } else {
            let k = choose|k: int| 0 <= k < n && k != i && #[trigger] selected[k];
            if k < n - 1 {
                assert(!(forall|k: int| 0 <= k < n - 1 && k != i ==> !#[trigger] selected[k]));
            }
        }
    }
}

/// A click selects the file alone; if it was selected alone, nothing. So a second click
/// takes the first one back.
pub proof fn law_click(selected: Seq<bool>, i: int)
    requires
        0 <= i < selected.len(),
    ensures
        clicked(selected, i).len() == selected.len(),
        forall|k: int| 0 <= k < selected.len() && k != i ==> !#[trigger] clicked(selected, i)[k],
        clicked(selected, i)[i] <==> !(selected[i] && forall|k: int|
            0 <= k < selected.len() && k != i ==> !#[trigger] selected[k]),
        clicked(selected, i)[i] ==> forall|k: int|
            0 <= k < selected.len() ==> !#[trigger] clicked(clicked(selected, i), i)[k],
{
    let n = selected.len() as int;
    if selected[i] {
        lemma_selected_alone(selected, i, n);
    }
    let once = clicked(selected, i);
    if once[i] {
        assert(once == only(selected.len(), i));
        lemma_selected_alone(once, i, n);
    }
}

/// All or none selected is just that, for any number of files.
pub proof fn law_uniform(n: nat, on: bool)
    ensures
        uniform(n, on).len() == n,
        forall|k: int| 0 <= k < n ==> #[trigger] uniform(n, on)[k] == on,
{
}

proof fn lemma_sums_prefix(a: Seq<FileInfo>, b: Seq<FileInfo>, n: int)
    requires
        forall|i: int| 0 <= i < n ==> #[trigger] a[i] == b[i],
    ensures
        sum_orig(a, n) == sum_orig(b, n),
        sum_packed(a, n) == sum_packed(b, n),
    decreases n,
{
    if n > 0 {
        lemma_sums_prefix(a, b, n - 1);
        assert(a[n - 1] == b[n - 1]);
    }
}

/// One more file adds its sizes to the totals; without files they are zero.
pub proof fn law_totals_add_up(files: Seq<FileInfo>, one: FileInfo)
    ensures
        ({
            let n = files.len() as int;
            &&& sum_orig(files.push(one), n + 1) == sum_orig(files, n) + one.orig_size
            &&& sum_packed(files.push(one), n + 1) == sum_packed(files, n) + one.packed_size
            &&& sum_orig(files, 0) == 0
            &&& sum_packed(files, 0) == 0
        }),
{
    lemma_sums_prefix(files.push(one), files, files.len() as int);
}

proof fn lemma_sum_selected(files: Seq<FileInfo>, selected: Seq<bool>, i: int, n: int)
    requires
        files.len() == selected.len(),
        0 <= i < files.len(),
        0 <= n <= files.len(),
    ensures
        sum_selected(files, selected.update(i, true), n) == sum_selected(
            files,
            selected.update(i, false),
            n,
        ) + (if i < n {
            files[i].orig_size as nat
        } else {
            0nat
        }),
    decreases n,
{
    if n > 0 {
        lemma_sum_selected(files, selected, i, n - 1);
    }
}

proof fn lemma_sum_uniform(files: Seq<FileInfo>, n: int)
    requires
        0 <= n <= files.len(),
    ensures
        sum_selected(files, uniform(files.len(), false), n) == 0,
        sum_selected(files, uniform(files.len(), true), n) == sum_orig(files, n),
    decreases n,
{
    if n > 0 {
        lemma_sum_uniform(files, n - 1);
    }
}

/// Selecting a file adds its size to that of the selected files; with none selected it
/// is zero, with all selected that of all.
pub proof fn law_selected_size(files: Seq<FileInfo>, selected: Seq<bool>, i: int)
    requires
        files.len() == selected.len(),
        0 <= i < files.len(),
    ensures
        ({
            let n = files.len() as int;
            &&& sum_selected(files, selected.update(i, true), n) == sum_selected(
                files,
                selected.update(i, false),
                n,
            ) + files[i].orig_size
            &&& sum_selected(files, Seq::new(files.len(), |k: int| false), n) == 0
            &&& sum_selected(files, Seq::new(files.len(), |k: int| true), n) == sum_orig(files, n)
        }),
{
    lemma_sum_selected(files, selected, i, files.len() as int);
    lemma_sum_uniform(files, files.len() as int);
    assert(Seq::new(files.len(), |k: int| false) =~= uniform(files.len(), false));
    assert(Seq::new(files.len(), |k: int| true) =~= uniform(files.len(), true));
}

/// A path leads out of the folder if two dots stand side by side in it, anywhere.
pub proof fn law_leads_out(path: Seq<char>)
    ensures
        leads_out(path) <==> exists|i: int|
            0 <= i <= path.len() - 2 && #[trigger] path.subrange(i, i + 2) == ".."@,
{
    reveal_strlit("..");
    if leads_out(path) {
        let i = choose|i: int|
            0 <= i < path.len() - 1 && #[trigger] path[i] == '.' && path[i + 1] == '.';
        assert(path.subrange(i, i + 2) =~= ".."@);
    }
    if exists|i: int| 0 <= i <= path.len() - 2 && #[trigger] path.subrange(i, i + 2) == ".."@ {
        let i = choose|i: int|
            0 <= i <= path.len() - 2 && #[trigger] path.subrange(i, i + 2) == ".."@;
        assert(path.subrange(i, i + 2)[0] == path[i]);
        assert(path.subrange(i, i + 2)[1] == path[i + 1]);
        assert(".."@[0] == '.' && ".."@[1] == '.');
    }
}

/// Of the chosen entries those are written, in the order in which they were chosen,
/// that exist and whose paths do not lead out of the folder.
pub proof fn law_writable_chosen(paths: Seq<Seq<char>>, chosen: Seq<usize>, n: int)
    requires
        0 <= n <= chosen.len(),
    ensures
        writable(paths, chosen, n) == chosen.take(n).filter(
            |i: usize| i < paths.len() && !leads_out(paths[i as int]),
        ),
    decreases n,
{
    reveal(Seq::filter);
    if n > 0 {
        law_writable_chosen(paths, chosen, n - 1);
        assert(chosen.take(n).drop_last() =~= chosen.take(n - 1));
        assert(chosen.take(n).last() == chosen[n - 1]);
    }
}

/// A file is opened as an archive if its name ends in ".axm" and has something in front
/// of that.
pub proof fn law_archive_names(name: Seq<char>)
    ensures
        has_archive_extension(name) <==> name.len() > 4 && name.subrange(
            name.len() - 4,
            name.len() as int,
        ) == ".axm"@,
{
    reveal_strlit("axm");
    reveal_strlit(".axm");
    let n = name.len() as int;
    let axm = "axm"@;
    assert(axm.len() == 3 && axm[0] == 'a' && axm[1] == 'x' && axm[2] == 'm');
    let dotted = ".axm"@;
    assert(dotted.len() == 4);
    assert(dotted[0] == '.' && dotted[1] == 'a' && dotted[2] == 'x' && dotted[3] == 'm');
    if has_archive_extension(name) {
        lemma_last_before(name, '.', n);
        let i = last_position(name, '.')->0;
        let tail = name.subrange(i + 1, n);
        assert(tail == axm);
        assert(i == n - 4);
        assert(tail[0] == name[i + 1] && tail[1] == name[i + 2] && tail[2] == name[i + 3]);
        assert(name.subrange(n - 4, n) =~= dotted);
    }
    if n > 4 && name.subrange(n - 4, n) == dotted {
        let head = name.subrange(0, n - 4);
        let end = name.subrange(n - 4, n);
        assert(end[0] == name[n - 4] && end[1] == name[n - 3] && end[2] == name[n - 2] && end[3]
            == name[n - 1]);
        assert(!axm.contains('.'));
        law_parts_at_last(head, '.', axm);
        assert(head.push('.') + axm =~= name);
    }
}

/// Which extensions stand for which kind of file; all others stand for none of these.
pub proof fn law_kinds(ext: Seq<char>)
    ensures
        kind_named(ext) == FileKind::Code <==> seq!["rs"@, "py"@, "js"@, "ts"@, "go"@, "c"@, "cpp"@, "h"@, "java"@, "kt"@].contains(ext),
        kind_named(ext) == FileKind::Text <==> seq!["txt"@, "md"@, "rst"@, "log"@].contains(ext),
        kind_named(ext) == FileKind::Image <==> seq!["png"@, "jpg"@, "jpeg"@, "gif"@, "bmp"@, "svg"@, "webp"@].contains(ext),
        kind_named(ext) == FileKind::Audio <==> seq!["mp3"@, "wav"@, "flac"@, "ogg"@, "aac"@].contains(ext),
        kind_named(ext) == FileKind::Video <==> seq!["mp4"@, "mkv"@, "avi"@, "mov"@].contains(ext),
        kind_named(ext) == FileKind::Pdf <==> seq!["pdf"@].contains(ext),
        kind_named(ext) == FileKind::Packed <==> seq!["zip"@, "tar"@, "gz"@, "7z"@, "axm"@].contains(ext),
        kind_named(ext) == FileKind::Data <==> seq!["json"@, "yaml"@, "yml"@, "toml"@, "xml"@, "csv"@].contains(ext),
{
    reveal_strlit("rs");
    reveal_strlit("py");
    reveal_strlit("js");
    reveal_strlit("ts");
    reveal_strlit("go");
    reveal_strlit("c");
    reveal_strlit("cpp");
    reveal_strlit("h");
    reveal_strlit("java");
    reveal_strlit("kt");
    reveal_strlit("txt");
    reveal_strlit("md");
    reveal_strlit("rst");
    reveal_strlit("log");
    reveal_strlit("png");
    reveal_strlit("jpg");
    reveal_strlit("jpeg");
    reveal_strlit("gif");
    reveal_strlit("bmp");
    reveal_strlit("svg");
    reveal_strlit("webp");
    reveal_strlit("mp3");
    reveal_strlit("wav");
    reveal_strlit("flac");
    reveal_strlit("ogg");
    reveal_strlit("aac");
    reveal_strlit("mp4");
    reveal_strlit("mkv");
    reveal_strlit("avi");
    reveal_strlit("mov");
    reveal_strlit("pdf");
    reveal_strlit("zip");
    reveal_strlit("tar");
    reveal_strlit("gz");
    reveal_strlit("7z");
    reveal_strlit("axm");
    reveal_strlit("json");
    reveal_strlit("yaml");
    reveal_strlit("yml");
    reveal_strlit("toml");
    reveal_strlit("xml");
    reveal_strlit("csv");
    assert("rs"@.len() == 2 && "rs"@[0] == 'r' && "rs"@[1] == 's');
    assert("py"@.len() == 2 && "py"@[0] == 'p' && "py"@[1] == 'y');
    assert("js"@.len() == 2 && "js"@[0] == 'j' && "js"@[1] == 's');
    assert("ts"@.len() == 2 && "ts"@[0] == 't' && "ts"@[1] == 's');
    assert("go"@.len() == 2 && "go"@[0] == 'g' && "go"@[1] == 'o');
    assert("c"@.len() == 1 && "c"@[0] == 'c');
    assert("cpp"@.len() == 3 && "cpp"@[0] == 'c' && "cpp"@[1] == 'p' && "cpp"@[2] == 'p');
    assert("h"@.len() == 1 && "h"@[0] == 'h');
    assert("java"@.len() == 4 && "java"@[0] == 'j' && "java"@[1] == 'a' && "java"@[2] == 'v' && "java"@[3] == 'a');
    assert("kt"@.len() == 2 && "kt"@[0] == 'k' && "kt"@[1] == 't');
    assert("txt"@.len() == 3 && "txt"@[0] == 't' && "txt"@[1] == 'x' && "txt"@[2] == 't');
    assert("md"@.len() == 2 && "md"@[0] == 'm' && "md"@[1] == 'd');
    assert("rst"@.len() == 3 && "rst"@[0] == 'r' && "rst"@[1] == 's' && "rst"@[2] == 't');
    assert("log"@.len() == 3 && "log"@[0] == 'l' && "log"@[1] == 'o' && "log"@[2] == 'g');
    assert("png"@.len() == 3 && "png"@[0] == 'p' && "png"@[1] == 'n' && "png"@[2] == 'g');
    assert("jpg"@.len() == 3 && "jpg"@[0] == 'j' && "jpg"@[1] == 'p' && "jpg"@[2] == 'g');
    assert("jpeg"@.len() == 4 && "jpeg"@[0] == 'j' && "jpeg"@[1] == 'p' && "jpeg"@[2] == 'e' && "jpeg"@[3] == 'g');
    assert("gif"@.len() == 3 && "gif"@[0] == 'g' && "gif"@[1] == 'i' && "gif"@[2] == 'f');
    assert("bmp"@.len() == 3 && "bmp"@[0] == 'b' && "bmp"@[1] == 'm' && "bmp"@[2] == 'p');
    assert("svg"@.len() == 3 && "svg"@[0] == 's' && "svg"@[1] == 'v' && "svg"@[2] == 'g');
    assert("webp"@.len() == 4 && "webp"@[0] == 'w' && "webp"@[1] == 'e' && "webp"@[2] == 'b' && "webp"@[3] == 'p');
    assert("mp3"@.len() == 3 && "mp3"@[0] == 'm' && "mp3"@[1] == 'p' && "mp3"@[2] == '3');
    assert("wav"@.len() == 3 && "wav"@[0] == 'w' && "wav"@[1] == 'a' && "wav"@[2] == 'v');
    assert("flac"@.len() == 4 && "flac"@[0] == 'f' && "flac"@[1] == 'l' && "flac"@[2] == 'a' && "flac"@[3] == 'c');
    assert("ogg"@.len() == 3 && "ogg"@[0] == 'o' && "ogg"@[1] == 'g' && "ogg"@[2] == 'g');
    assert("aac"@.len() == 3 && "aac"@[0] == 'a' && "aac"@[1] == 'a' && "aac"@[2] == 'c');
    assert("mp4"@.len() == 3 && "mp4"@[0] == 'm' && "mp4"@[1] == 'p' && "mp4"@[2] == '4');
    assert("mkv"@.len() == 3 && "mkv"@[0] == 'm' && "mkv"@[1] == 'k' && "mkv"@[2] == 'v');
    assert("avi"@.len() == 3 && "avi"@[0] == 'a' && "avi"@[1] == 'v' && "avi"@[2] == 'i');
    assert("mov"@.len() == 3 && "mov"@[0] == 'm' && "mov"@[1] == 'o' && "mov"@[2] == 'v');
    assert("pdf"@.len() == 3 && "pdf"@[0] == 'p' && "pdf"@[1] == 'd' && "pdf"@[2] == 'f');
    assert("zip"@.len() == 3 && "zip"@[0] == 'z' && "zip"@[1] == 'i' && "zip"@[2] == 'p');
    assert("tar"@.len() == 3 && "tar"@[0] == 't' && "tar"@[1] == 'a' && "tar"@[2] == 'r');
    assert("gz"@.len() == 2 && "gz"@[0] == 'g' && "gz"@[1] == 'z');
    assert("7z"@.len() == 2 && "7z"@[0] == '7' && "7z"@[1] == 'z');
    assert("axm"@.len() == 3 && "axm"@[0] == 'a' && "axm"@[1] == 'x' && "axm"@[2] == 'm');
    assert("json"@.len() == 4 && "json"@[0] == 'j' && "json"@[1] == 's' && "json"@[2] == 'o' && "json"@[3] == 'n');
    assert("yaml"@.len() == 4 && "yaml"@[0] == 'y' && "yaml"@[1] == 'a' && "yaml"@[2] == 'm' && "yaml"@[3] == 'l');
    assert("yml"@.len() == 3 && "yml"@[0] == 'y' && "yml"@[1] == 'm' && "yml"@[2] == 'l');
    assert("toml"@.len() == 4 && "toml"@[0] == 't' && "toml"@[1] == 'o' && "toml"@[2] == 'm' && "toml"@[3] == 'l');
    assert("xml"@.len() == 3 && "xml"@[0] == 'x' && "xml"@[1] == 'm' && "xml"@[2] == 'l');
    assert("csv"@.len() == 3 && "csv"@[0] == 'c' && "csv"@[1] == 's' && "csv"@[2] == 'v');
    let l = seq!["rs"@, "py"@, "js"@, "ts"@, "go"@, "c"@, "cpp"@, "h"@, "java"@, "kt"@];
    assert(l[0] == "rs"@);
    assert(l[1] == "py"@);
    assert(l[2] == "js"@);
    assert(l[3] == "ts"@);
    assert(l[4] == "go"@);
    assert(l[5] == "c"@);
    assert(l[6] == "cpp"@);
    assert(l[7] == "h"@);
    assert(l[8] == "java"@);
    assert(l[9] == "kt"@);
    assert(l.contains(ext) <==> (ext == "rs"@ || ext == "py"@ || ext == "js"@ || ext == "ts"@ || ext == "go"@ || ext == "c"@ || ext == "cpp"@ || ext == "h"@ || ext == "java"@ || ext == "kt"@));
    let l = seq!["txt"@, "md"@, "rst"@, "log"@];
    assert(l[0] == "txt"@);
    assert(l[1] == "md"@);
    assert(l[2] == "rst"@);
    assert(l[3] == "log"@);
    assert(l.contains(ext) <==> (ext == "txt"@ || ext == "md"@ || ext == "rst"@ || ext == "log"@));
    let l = seq!["png"@, "jpg"@, "jpeg"@, "gif"@, "bmp"@, "svg"@, "webp"@];
    assert(l[0] == "png"@);
    assert(l[1] == "jpg"@);
    assert(l[2] == "jpeg"@);
    assert(l[3] == "gif"@);
    assert(l[4] == "bmp"@);
    assert(l[5] == "svg"@);
    assert(l[6] == "webp"@);
    assert(l.contains(ext) <==> (ext == "png"@ || ext == "jpg"@ || ext == "jpeg"@ || ext == "gif"@ || ext == "bmp"@ || ext == "svg"@ || ext == "webp"@));
    let l = seq!["mp3"@, "wav"@, "flac"@, "ogg"@, "aac"@];
    assert(l[0] == "mp3"@);
    assert(l[1] == "wav"@);
    assert(l[2] == "flac"@);
    assert(l[3] == "ogg"@);
    assert(l[4] == "aac"@);
    assert(l.contains(ext) <==> (ext == "mp3"@ || ext == "wav"@ || ext == "flac"@ || ext == "ogg"@ || ext == "aac"@));
    let l = seq!["mp4"@, "mkv"@, "avi"@, "mov"@];
    assert(l[0] == "mp4"@);
    assert(l[1] == "mkv"@);
    assert(l[2] == "avi"@);
    assert(l[3] == "mov"@);
    assert(l.contains(ext) <==> (ext == "mp4"@ || ext == "mkv"@ || ext == "avi"@ || ext == "mov"@));
    let l = seq!["pdf"@];
    assert(l[0] == "pdf"@);
    assert(l.contains(ext) <==> (ext == "pdf"@));
    let l = seq!["zip"@, "tar"@, "gz"@, "7z"@, "axm"@];
    assert(l[0] == "zip"@);
    assert(l[1] == "tar"@);
    assert(l[2] == "gz"@);
    assert(l[3] == "7z"@);
    assert(l[4] == "axm"@);
    assert(l.contains(ext) <==> (ext == "zip"@ || ext == "tar"@ || ext == "gz"@ || ext == "7z"@ || ext == "axm"@));
    let l = seq!["json"@, "yaml"@, "yml"@, "toml"@, "xml"@, "csv"@];
    assert(l[0] == "json"@);
    assert(l[1] == "yaml"@);
    assert(l[2] == "yml"@);
    assert(l[3] == "toml"@);
    assert(l[4] == "xml"@);
    assert(l[5] == "csv"@);
    assert(l.contains(ext) <==> (ext == "json"@ || ext == "yaml"@ || ext == "yml"@ || ext == "toml"@ || ext == "xml"@ || ext == "csv"@));
}

/// The indices are counted from zero, without a gap.
pub proof fn law_counting(n: nat)
    requires
        n <= usize::MAX,
    ensures
        counting(n).len() == n,
        forall|i: int| 0 <= i < n ==> #[trigger] counting(n)[i] == i,
{
}

/// The paths of entries are taken one by one, in order.
pub proof fn law_paths_taken(entries: Seq<ArchiveEntry>)
    ensures
        entry_paths(entries).len() == entries.len(),
        forall|i: int|
            0 <= i < entries.len() ==> #[trigger] entry_paths(entries)[i] == entries[i].rel_path@,
{
}

/// Each kind of file is shown with a sign of its own.
pub proof fn law_icons(kind: FileKind)
    ensures
        kind_icon(kind) == (match kind {
            FileKind::Code => "◈"@,
            FileKind::Text => "≡"@,
            FileKind::Image => "⬡"@,
            FileKind::Audio => "♪"@,
            FileKind::Video => "▶"@,
            FileKind::Pdf => "⊞"@,
            FileKind::Packed => "⊟"@,
            FileKind::Data => "{}"@,
            FileKind::Other => "·"@,
        }),
{
}

} // verus!
