//! Tidying a save: the lists of owned items are sorted, the furniture is put
//! in order, and emails that are listed twice are listed once.

use crate::text::{lemma_text_order_total, text_cmp, text_order};
use crate::utils::{
    added_extension, extension_of, may_add, same_text, try_added_extension, with_extension_of,
    DirFacts, SaveDirError, SaveDirHandler, LAST_SLOT,
};
use std::cmp::Ordering;
use vstd::prelude::*;

verus! {

/// Which save to tidy.
pub struct Ops {
    /// The number of the save's slot.
    pub save_slot: u8,
}

/// The files that tidying a save touches.
pub struct Plan {
    /// The save file.
    pub save_file: String,
    /// The file that the tidied save is written to before it takes the place
    /// of the save file.
    pub output_tmp: String,
    /// The file that the save as it was is kept in.
    pub backup: String,
}

/// A path with an extension added behind the one that it has.
pub open spec fn plus_extension(path: Seq<char>, extension: Seq<char>) -> Seq<char> {
    with_extension_of(path, added_extension(extension_of(path), extension))
}

/// Whether naming the files of a slot asks for the save directory: it does
/// for a slot that there is.
pub fn needs_save_dir(ops: &Ops) -> (needs: bool)
    ensures
        needs == (ops.save_slot <= LAST_SLOT),
{
    ops.save_slot <= LAST_SLOT
}

/// The two files beside a save file: the file with `.new` added, and the
/// file with `.bak` added. There are none where an extension that a file
/// would get holds a separator.
pub open spec fn beside(save_file: Seq<char>) -> Option<(Seq<char>, Seq<char>)> {
    if may_add(save_file, "new"@) && may_add(save_file, "bak"@) {
        Some((plus_extension(save_file, "new"@), plus_extension(save_file, "bak"@)))
    } else {
        None
    }
}

/// The two files beside a save file.
pub fn files_beside(save_file: &str) -> (files: Option<(String, String)>)
    ensures
        match files {
            Some((output_tmp, backup)) => beside(save_file@) == Some((output_tmp@, backup@)),
            None => beside(save_file@) is None,
        },
{
    let output_tmp = match try_added_extension(save_file, "new") {
        Some(file) => file,
        None => {
            return None;
        },
    };
    let backup = match try_added_extension(save_file, "bak") {
        Some(file) => file,
        None => {
            return None;
        },
    };
    Some((output_tmp, backup))
}

/// Whether `plan` is the plan for the save file that was named: a failure to
/// name the save file is handed on, and so is the failure to name the files
/// beside it.
pub open spec fn planned(
    plan: Result<Plan, SaveDirError>,
    save_file: Result<Seq<char>, SaveDirError>,
) -> bool {
    match save_file {
        Err(e) => plan == Err::<Plan, SaveDirError>(e),
        Ok(file) => match beside(file) {
            None => plan == Err::<Plan, SaveDirError>(SaveDirError::SeparatorInExtension),
            Some((output_tmp, backup)) => plan matches Ok(p) && p.save_file@ == file
                && p.output_tmp@ == output_tmp && p.backup@ == backup,
        },
    }
}

/// Names the files that tidying the save of a slot touches: the save file,
/// the same with `.new` added for the tidied save, and with `.bak` added for
/// the save as it was.
pub fn handler(ops: Ops, save_dir: &mut SaveDirHandler, facts: &DirFacts) -> (plan: Result<
    Plan,
    SaveDirError,
>)
    ensures
        final(save_dir).overridden() == old(save_dir).overridden(),
        final(save_dir).found() == if ops.save_slot > LAST_SLOT {
            old(save_dir).found()
        } else {
            old(save_dir).remembers(*facts)
        },
        planned(plan, old(save_dir).save_slot_of(ops.save_slot, *facts)),
{
    let save_file = match save_dir.resolve_save_slot(ops.save_slot, facts) {
        Ok(file) => file,
        Err(e) => {
            return Err(e);
        },
    };
    match files_beside(save_file.as_str()) {
        Some((output_tmp, backup)) => Ok(Plan { save_file, output_tmp, backup }),
        None => Err(SaveDirError::SeparatorInExtension),
    }
}

/// The texts of a run of strings.
pub open spec fn texts_of(list: Seq<String>) -> Seq<Seq<char>> {
    Seq::new(list.len(), |i: int| list[i]@)
}

/// Whether no text of the list compares greater than one behind it.
pub open spec fn texts_sorted(list: Seq<Seq<char>>) -> bool {
    forall|i: int, j: int|
        0 <= i < j < list.len() ==> text_order(#[trigger] list[i], #[trigger] list[j])
            != Ordering::Greater
}

/// `slice::sort` of std, on strings: afterwards the list holds the same
/// texts, each as often as before, and none compares greater than one behind
/// it.
#[verifier::external_body]
fn sort_texts(list: &mut Vec<String>)
    ensures
        texts_of(final(list)@).to_multiset() == texts_of(old(list)@).to_multiset(),
        texts_sorted(texts_of(final(list)@)),
{
    list.sort()
}

/// Sorts a list of owned items by their names.
pub fn sort_cosmetics(list: Vec<String>) -> (sorted: Vec<String>)
    ensures
        texts_of(sorted@).to_multiset() == texts_of(list@).to_multiset(),
        texts_sorted(texts_of(sorted@)),
{
    let mut sorted = list;
    sort_texts(&mut sorted);
    sorted
}

/// The name of a piece of furniture.
pub struct FurnLabel(pub String);

/// The name of the piece of furniture that comes first.
pub const FIRST_FIXED: &'static str = "computer1";

/// The name of the piece of furniture that comes second.
pub const SECOND_FIXED: &'static str = "hc_journal";

/// The place of a piece of furniture that has a fixed place.
pub open spec fn fixed_place(label: Seq<char>) -> Option<int> {
    if label == FIRST_FIXED@ {
        Some(0)
    } else if label == SECOND_FIXED@ {
        Some(1)
    } else {
        None
    }
}

/// How two pieces of furniture compare: those with a fixed place come first,
/// in the order of their places, and the others follow in the order of
/// their names.
pub open spec fn furn_order(first: Seq<char>, second: Seq<char>) -> Ordering {
    match (fixed_place(first), fixed_place(second)) {
        (Some(i1), Some(i2)) => if i1 < i2 {
            Ordering::Less
        } else if i1 == i2 {
            Ordering::Equal
        } else {
            Ordering::Greater
        },
        (Some(_), None) => Ordering::Less,
        (None, Some(_)) => Ordering::Greater,
        (None, None) => text_order(first, second),
    }
}

/// The place of a piece of furniture that has a fixed place.
fn fixed_position(label: &str) -> (place: Option<usize>)
    ensures
        match place {
            Some(i) => fixed_place(label@) == Some::<int>(to_int(i)),
            None => fixed_place(label@) is None,
        },
{
    if same_text(label, FIRST_FIXED) {
        Some(0)
    } else if same_text(label, SECOND_FIXED) {
        Some(1)
    } else {
        None
    }
}

/// How two pieces of furniture compare.
pub fn furn_label_cmp(first: &FurnLabel, second: &FurnLabel) -> (order: Ordering)
    ensures
        order == furn_order(first.0@, second.0@),
{
    let i1 = fixed_position(first.0.as_str());
    let i2 = fixed_position(second.0.as_str());
    match (i1, i2) {
        (Some(i1), Some(i2)) => {
            if i1 < i2 {
                Ordering::Less
            } else if i1 == i2 {
                Ordering::Equal
            } else {
                Ordering::Greater
            }
        },
        (Some(_), None) => Ordering::Less,
        (None, Some(_)) => Ordering::Greater,
        (None, None) => text_cmp(first.0.as_str(), second.0.as_str()),
    }
}

/// A number as an integer.
pub open spec fn to_int(i: usize) -> int {
    i as int
}

/// Whether the first piece of furniture comes before the second.
pub open spec fn furn_before(first: Seq<char>, second: Seq<char>) -> bool {
    furn_order(first, second) == Ordering::Less
}

/// Whether neither of two pieces of furniture comes before the other.
pub open spec fn furn_tie(first: Seq<char>, second: Seq<char>) -> bool {
    furn_order(first, second) == Ordering::Equal
}

/// The names of a run of furniture.
pub open spec fn labels_of(labels: Seq<FurnLabel>) -> Seq<Seq<char>> {
    Seq::new(labels.len(), |i: int| labels[i].0@)
}

/// Whether the piece at `i` goes before the piece at `j`: it comes before it,
/// or neither comes before the other and it stood before it.
pub open spec fn goes_before(labels: Seq<Seq<char>>, i: int, j: int) -> bool {
    furn_before(labels[i], labels[j]) || (furn_tie(labels[i], labels[j]) && i < j)
}

/// Whether `order` names the piece at `i`.
pub open spec fn names(order: Seq<usize>, i: int) -> bool {
    exists|k: int| 0 <= k < order.len() && #[trigger] order[k] == i
}

/// Whether `order` puts the furniture in order: it names as many pieces as
/// there are, each by its index, and each piece that it names goes before
/// those that it names later.
pub open spec fn in_order(labels: Seq<Seq<char>>, order: Seq<usize>) -> bool {
    &&& order.len() == labels.len()
    &&& forall|k: int| 0 <= k < order.len() ==> (#[trigger] order[k]) < labels.len()
    &&& forall|i: int| 0 <= i < labels.len() ==> names(order, i)
    &&& forall|k: int, l: int|
        0 <= k < l < order.len() ==> goes_before(
            labels,
            (#[trigger] order[k]) as int,
            (#[trigger] order[l]) as int,
        )
}

/// Whether the items are numbered by their places.
pub open spec fn numbered(items: Seq<(usize, FurnLabel)>) -> bool {
    forall|i: int| 0 <= i < items.len() ==> (#[trigger] items[i]).0 == i
}

/// Whether no item comes before one in front of it, and items of which
/// neither comes before the other stand in the order of their numbers.
pub open spec fn sorted_by_label(items: Seq<(usize, FurnLabel)>) -> bool {
    forall|k: int, l: int|
        0 <= k < l < items.len() ==> {
            let first = #[trigger] items[k];
            let second = #[trigger] items[l];
            furn_before(first.1.0@, second.1.0@) || (furn_tie(first.1.0@, second.1.0@) && first.0
                < second.0)
        }
}

/// `slice::sort_by` of std, on numbered names of furniture, with
/// `furn_label_cmp` for the order, which is total: afterwards the list holds
/// the same items, each as often as before, and no item comes before one in
/// front of it. The sort is stable: items of which neither comes before the
/// other keep their order, which for items that were numbered by their places
/// is the order of their numbers.
#[verifier::external_body]
fn sort_by_label(items: &mut Vec<(usize, FurnLabel)>)
    requires
        numbered(old(items)@),
    ensures
        final(items)@.to_multiset() == old(items)@.to_multiset(),
        sorted_by_label(final(items)@),
{
    items.sort_by(|first, second| furn_label_cmp(&first.1, &second.1))
}

/// The order in which to put the furniture: the indices of the pieces, those
/// with a fixed place first, the others behind them by their names, and
/// pieces of one name in the order in which they stood.
pub fn sort_furniture(labels: Vec<FurnLabel>) -> (order: Vec<usize>)
    ensures
        in_order(labels_of(labels@), order@),
{
    let ghost texts = labels_of(labels@);
    let mut items: Vec<(usize, FurnLabel)> = Vec::new();
    let mut i: usize = 0;
    while i < labels.len()
        invariant
            i <= labels.len(),
            items@.len() == i,
            texts == labels_of(labels@),
            forall|j: int| 0 <= j < i ==> (#[trigger] items@[j]).0 == j && items@[j].1.0@ == texts[j],
        decreases labels.len() - i,
    {
        items.push((i, FurnLabel(labels[i].0.clone())));
        i += 1;
    }
    let ghost before = items@;
    sort_by_label(&mut items);
    proof {
        broadcast use vstd::seq_lib::group_to_multiset_ensures;

        assert(items@.len() == before.len()) by {
            assert(items@.to_multiset().len() == before.to_multiset().len());
        }
        assert forall|k: int| 0 <= k < items@.len() implies (#[trigger] items@[k]).0 < texts.len()
            && items@[k].1.0@ == texts[items@[k].0 as int] by {
            let item = items@[k];
            assert(items@.contains(item));
            assert(items@.to_multiset().count(item) > 0);
            assert(before.contains(item));
            let at = choose|at: int| 0 <= at < before.len() && before[at] == item;
            assert(before[at].0 == at);
        }
    }
    let mut order: Vec<usize> = Vec::new();
    let mut k: usize = 0;
    while k < items.len()
        invariant
            k <= items.len(),
            order@.len() == k,
            forall|j: int| 0 <= j < k ==> (#[trigger] order@[j]) == items@[j].0,
        decreases items.len() - k,
    {
        order.push(items[k].0);
        k += 1;
    }
    proof {
        broadcast use vstd::seq_lib::group_to_multiset_ensures;

        assert forall|i: int| 0 <= i < texts.len() implies names(order@, i) by {
            let item = before[i];
            assert(before.contains(item));
            assert(before.to_multiset().count(item) > 0);
            assert(items@.contains(item));
            let at = choose|at: int| 0 <= at < items@.len() && items@[at] == item;
            assert(item.0 == i);
            assert(order@[at] == items@[at].0);
        }
        assert forall|a: int, b: int| 0 <= a < b < order@.len() implies goes_before(
            texts,
            (#[trigger] order@[a]) as int,
            (#[trigger] order@[b]) as int,
        ) by {
            let first = items@[a];
            let second = items@[b];
            assert(first.1.0@ == texts[first.0 as int]);
            assert(second.1.0@ == texts[second.0 as int]);
        }
    }
    order
}

/// The emails of a list that stay, where `seen` holds the ids that came up
/// before. The list is gone through from its end to its start: an id that was
/// seen is dropped, and one that was not seen stays, and is seen from then on.
pub open spec fn kept(list: Seq<i64>, seen: Set<i64>) -> Seq<i64>
    decreases list.len(),
{
    if list.len() == 0 {
        Seq::empty()
    } else if seen.contains(list.last()) {
        kept(list.drop_last(), seen)
    } else {
        kept(list.drop_last(), seen.insert(list.last())).push(list.last())
    }
}

/// The ids of a list.
pub open spec fn ids_of(list: Seq<i64>) -> Set<i64> {
    Set::new(|id: i64| list.contains(id))
}

/// Whether the list holds the id.
fn contains_id(ids: &Vec<i64>, id: i64) -> (found: bool)
    ensures
        found == ids@.contains(id),
{
    let mut i: usize = 0;
    while i < ids.len()
        invariant
            i <= ids.len(),
            forall|j: int| 0 <= j < i ==> ids@[j] != id,
        decreases ids.len() - i,
    {
        if ids[i] == id {
            return true;
        }
        i += 1;
    }
    false
}

/// Drops from a list of emails those whose id was seen before, in another
/// list or further behind in this one, and adds the ids of the list to those
/// that were seen. Gives the number of emails that were dropped.
fn dedup_op(emails: &mut Vec<i64>, email_ids: &mut Vec<i64>) -> (removed: usize)
    ensures
        final(emails)@ == kept(old(emails)@, ids_of(old(email_ids)@)),
        ids_of(final(email_ids)@) == ids_of(old(email_ids)@).union(ids_of(old(emails)@)),
        removed == old(emails)@.len() - final(emails)@.len(),
{
    let ghost list = emails@;
    let ghost seen = ids_of(email_ids@);
    let mut removed: usize = 0;
    let mut i: usize = emails.len();
    assert(list.take(i as int) =~= list);
    assert(emails@.skip(i as int) =~= Seq::empty());
    assert(kept(list, seen) =~= kept(list, seen) + Seq::empty());
    assert(ids_of(email_ids@) =~= seen.union(ids_of(list.skip(i as int))));
    // emails are stored in the same way they are shown in-game: newer first
    while i > 0
        invariant
            i <= emails@.len(),
            list.len() <= usize::MAX,
            emails@.len() + removed == list.len(),
            emails@.take(i as int) == list.take(i as int),
            kept(list, seen) == kept(list.take(i as int), ids_of(email_ids@)) + emails@.skip(
                i as int,
            ),
            ids_of(email_ids@) == seen.union(ids_of(list.skip(i as int))),
        decreases i,
    {
        let ghost head = list.take(i as int);
        let ghost tail = emails@.skip(i as int);
        let ghost known = ids_of(email_ids@);
        let ghost shorter = email_ids@;
        i -= 1;
        let id = emails[i];
        proof {
            assert(emails@[i as int] == emails@.take(i + 1)[i as int]);
            assert(head.last() == id);
            assert(head.drop_last() =~= list.take(i as int));
            assert(ids_of(list.skip(i as int)) =~= ids_of(list.skip(i + 1)).insert(id)) by {
                let longer = list.skip(i as int);
                let shorter = list.skip(i + 1);
                assert(longer[0] == id);
                assert forall|x: i64| longer.contains(x) <==> (shorter.contains(x) || x == id) by {
                    if longer.contains(x) {
                        let at = choose|at: int| 0 <= at < longer.len() && longer[at] == x;
                        if at > 0 {
                            assert(shorter[at - 1] == x);
                        }
                    }
                    if shorter.contains(x) {
                        let at = choose|at: int| 0 <= at < shorter.len() && shorter[at] == x;
                        assert(longer[at + 1] == x);
                    }
                }
            }
        }
        if contains_id(email_ids, id) {
            emails.remove(i);
            removed += 1;
            proof {
                assert(emails@.skip(i as int) =~= tail);
                assert(emails@.take(i as int) =~= list.take(i as int));
                assert(known.insert(id) =~= known);
            }
        } else {
            email_ids.push(id);
            proof {
                assert(ids_of(email_ids@) =~= known.insert(id)) by {
                    let longer = email_ids@;
                    assert(longer.last() == id);
                    assert forall|x: i64| longer.contains(x) <==> (shorter.contains(x) || x
                        == id) by {
                        if longer.contains(x) {
                            let at = choose|at: int| 0 <= at < longer.len() && longer[at] == x;
                            if at < shorter.len() {
                                assert(shorter[at] == x);
                            }
                        }
                        if shorter.contains(x) {
                            let at = choose|at: int| 0 <= at < shorter.len() && shorter[at] == x;
                            assert(longer[at] == x);
                        }
                    }
                }
                assert(emails@.skip(i as int) =~= seq![id] + tail);
                assert(emails@.take(i as int) =~= list.take(i as int));
                let front = kept(list.take(i as int), known.insert(id));
                assert(front.push(id) + tail =~= front + (seq![id] + tail));
            }
        }
    }
    proof {
        assert(list.take(0) =~= Seq::empty());
        assert(emails@.skip(0) =~= emails@);
        assert(kept(Seq::empty(), ids_of(email_ids@)) + emails@ =~= emails@);
        assert(list.skip(0) =~= list);
    }
    removed
}

/// Two lists of emails, each id once.
pub struct Deduplicated {
    /// The emails that were read.
    pub read: Vec<i64>,
    /// The emails that were not read.
    pub unread: Vec<i64>,
    /// The number of emails that were dropped from those that were read.
    pub removed_read: usize,
    /// The number of emails that were dropped from those that were not read.
    pub removed_unread: usize,
}

/// Lists every email once. In the list of those that were read, of emails
/// with one id the last one stays. From the list of those that were not read
/// the emails that were read are dropped as well.
pub fn deduplicate_emails(read: Vec<i64>, unread: Vec<i64>) -> (lists: Deduplicated)
    ensures
        lists.read@ == kept(read@, Set::empty()),
        lists.unread@ == kept(unread@, ids_of(read@)),
        lists.removed_read == read@.len() - lists.read@.len(),
        lists.removed_unread == unread@.len() - lists.unread@.len(),
{
    let mut email_ids: Vec<i64> = Vec::with_capacity(32);
    let mut read = read;
    let mut unread = unread;
    assert(ids_of(email_ids@) =~= Set::empty());
    let ghost first = read@;
    let removed_read = dedup_op(&mut read, &mut email_ids);
    assert(ids_of(email_ids@) =~= ids_of(first));
    let removed_unread = dedup_op(&mut unread, &mut email_ids);
    Deduplicated { read, unread, removed_read, removed_unread }
}

/// Furniture is in a total order: a name compares equal to itself and to no
/// other, two names compare one way as much as the other way round, and what
/// comes before a name that comes before another comes before that.
pub proof fn lemma_furn_order_total(a: Seq<char>, b: Seq<char>, c: Seq<char>)
    ensures
        furn_order(a, b) == Ordering::Equal <==> a == b,
        furn_order(a, b) == Ordering::Less <==> furn_order(b, a) == Ordering::Greater,
        furn_order(a, b) == Ordering::Less && furn_order(b, c) == Ordering::Less ==> furn_order(
            a,
            c,
        ) == Ordering::Less,
{
    lemma_text_order_total(a, b, c);
    lemma_text_order_total(b, a, c);
}

/// A list with one more id holds that id and those that it held.
proof fn lemma_push_contains(list: Seq<i64>, last: i64, id: i64)
    ensures
        list.push(last).contains(id) <==> list.contains(id) || id == last,
{
    let longer = list.push(last);
    if longer.contains(id) {
        let at = choose|at: int| 0 <= at < longer.len() && longer[at] == id;
        if at < list.len() {
            assert(list[at] == id);
        }
    }
    if list.contains(id) {
        let at = choose|at: int| 0 <= at < list.len() && list[at] == id;
        assert(longer[at] == id);
    }
    if id == last {
        assert(longer[list.len() as int] == id);
    }
}

/// The emails that stay are those of the list whose ids were not seen, each
/// id once.
pub proof fn lemma_kept(list: Seq<i64>, seen: Set<i64>)
    ensures
        kept(list, seen).no_duplicates(),
        forall|id: i64|
            #[trigger] kept(list, seen).contains(id) <==> list.contains(id) && !seen.contains(id),
    decreases list.len(),
{
    let result = kept(list, seen);
    if list.len() == 0 {
        assert forall|id: i64| #[trigger]
            result.contains(id) <==> list.contains(id) && !seen.contains(id) by {
            if result.contains(id) {
                let at = choose|at: int| 0 <= at < result.len() && result[at] == id;
            }
            if list.contains(id) {
                let at = choose|at: int| 0 <= at < list.len() && list[at] == id;
            }
        }
    } else {
        let last = list.last();
        let front = list.drop_last();
        assert(list =~= front.push(last));
        if seen.contains(last) {
            lemma_kept(front, seen);
            assert forall|id: i64| #[trigger]
                result.contains(id) <==> list.contains(id) && !seen.contains(id) by {
                lemma_push_contains(front, last, id);
                assert(kept(front, seen).contains(id) <==> front.contains(id) && !seen.contains(
                    id,
                ));
            }
        } else {
            let wider = seen.insert(last);
            lemma_kept(front, wider);
            let before = kept(front, wider);
            assert(result == before.push(last));
            assert forall|id: i64| #[trigger]
                result.contains(id) <==> list.contains(id) && !seen.contains(id) by {
                lemma_push_contains(front, last, id);
                lemma_push_contains(before, last, id);
                assert(before.contains(id) <==> front.contains(id) && !wider.contains(id));
            }
            assert forall|i: int, j: int|
                0 <= i < result.len() && 0 <= j < result.len() && i != j implies result[i]
                != result[j] by {
                if i < before.len() && j < before.len() {
                    assert(before[i] != before[j]);
                } else if i < before.len() {
                    assert(result[i] == before[i] && result[j] == last);
                    assert(before.contains(before[i]));
                    assert(!wider.contains(before[i]));
                } else {
                    assert(result[j] == before[j] && result[i] == last);
                    assert(before.contains(before[j]));
                    assert(!wider.contains(before[j]));
                }
            }
        }
    }
}

/// Sorting pins a list: lists that are sorted and hold the same texts, each
/// as often as the other, are the same list.
pub proof fn lemma_sorted_texts_unique(x: Seq<Seq<char>>, y: Seq<Seq<char>>)
    requires
        texts_sorted(x),
        texts_sorted(y),
        x.to_multiset() == y.to_multiset(),
    ensures
        x == y,
{
    let leq = |a: Seq<char>, b: Seq<char>| text_order(a, b) != Ordering::Greater;
    assert forall|a: Seq<char>| #[trigger] leq(a, a) by {
        lemma_text_order_total(a, a, a);
    }
    assert forall|a: Seq<char>, b: Seq<char>| #[trigger] leq(a, b) && #[trigger] leq(b, a) implies a
        == b by {
        lemma_text_order_total(a, b, a);
        lemma_text_order_total(b, a, b);
    }
    assert forall|a: Seq<char>, b: Seq<char>, c: Seq<char>| #[trigger]
        leq(a, b) && #[trigger] leq(b, c) implies leq(a, c) by {
        lemma_text_order_total(a, b, c);
        lemma_text_order_total(b, c, a);
        lemma_text_order_total(a, c, b);
        lemma_text_order_total(c, a, b);
    }
    assert forall|a: Seq<char>, b: Seq<char>| #[trigger] leq(a, b) || #[trigger] leq(b, a) by {
        lemma_text_order_total(a, b, a);
        lemma_text_order_total(b, a, b);
    }
    assert(vstd::relations::total_ordering(leq));
    assert(vstd::relations::sorted_by(x, leq));
    assert(vstd::relations::sorted_by(y, leq));
    vstd::seq_lib::lemma_sorted_unique(x, y, leq);
}

/// Two orders of the same furniture agree on their first `k` places.
proof fn lemma_orders_agree(labels: Seq<Seq<char>>, first: Seq<usize>, second: Seq<usize>, k: int)
    requires
        in_order(labels, first),
        in_order(labels, second),
        0 <= k <= labels.len(),
    ensures
        forall|j: int| 0 <= j < k ==> first[j] == second[j],
    decreases k,
{
    if k > 0 {
        lemma_orders_agree(labels, first, second, k - 1);
        let at = k - 1;
        let a = first[at];
        let b = second[at];
        if a != b {
            assert(names(first, to_int(b)));
            let p = choose|p: int| 0 <= p < first.len() && #[trigger] first[p] == to_int(b);
            assert(names(second, to_int(a)));
            let q = choose|q: int| 0 <= q < second.len() && #[trigger] second[q] == to_int(a);
            lemma_furn_order_total(labels[to_int(a)], labels[to_int(b)], labels[to_int(a)]);
            lemma_furn_order_total(labels[to_int(b)], labels[to_int(a)], labels[to_int(b)]);
            lemma_furn_order_total(labels[to_int(a)], labels[to_int(a)], labels[to_int(a)]);
            lemma_furn_order_total(labels[to_int(b)], labels[to_int(b)], labels[to_int(b)]);
            if p < at {
                assert(second[p] == first[p]);
                assert(goes_before(labels, to_int(second[p]), to_int(second[at])));
            } else {
                assert(goes_before(labels, to_int(first[at]), to_int(first[p])));
            }
            if q < at {
                assert(first[q] == second[q]);
                assert(goes_before(labels, to_int(first[q]), to_int(first[at])));
            } else {
                assert(goes_before(labels, to_int(second[at]), to_int(second[q])));
            }
        }
    }
}

/// There is one order to put furniture in: two orders of the same furniture
/// are the same.
pub proof fn lemma_in_order_unique(labels: Seq<Seq<char>>, first: Seq<usize>, second: Seq<usize>)
    requires
        in_order(labels, first),
        in_order(labels, second),
    ensures
        first == second,
{
    lemma_orders_agree(labels, first, second, labels.len() as int);
    assert(first =~= second);
}

} // verus!
