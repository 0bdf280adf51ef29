use vstd::prelude::*;

use crate::rules::{classify, lemma_classify_below, RulesFilter};
use crate::text::{has_visible, has_visible_char, pieces, split_pieces, words};

verus! {

/// Every entry holds at least one item.
pub open spec fn entries_nonempty(l: Seq<Seq<Seq<char>>>) -> bool {
    forall|i: int| 0 <= i < l.len() ==> (#[trigger] l[i]).len() > 0
}

/// One consolidation pass over `l`, left to right: the groups built so far, and for
/// each category already seen, the position of its group.
pub open spec fn group_scan(cats: Seq<Seq<Seq<char>>>, l: Seq<Seq<Seq<char>>>) -> (
    Seq<Seq<Seq<char>>>,
    Map<nat, nat>,
)
    decreases l.len(),
{
    if l.len() == 0 {
        (seq![], map![])
    } else {
        let (out, seen) = group_scan(cats, l.drop_last());
        let e = l.last();
        if e.len() != 1 {
            (out, seen)
        } else {
            let item = e[0];
            match classify(cats, item) {
                None => (out.push(seq![item]), seen),
                Some(k) => if seen.contains_key(k) {
                    (out.update(seen[k] as int, out[seen[k] as int].push(item)), seen)
                } else {
                    (out.push(seq![item]), seen.insert(k, out.len()))
                },
            }
        }
    }
}

/// The list that consolidating `l` under `cats` gives. Single-item entries are
/// grouped by category, each group standing where its first item stood; an item
/// that no category takes stays alone. Entries of several items are dropped.
pub open spec fn consolidated(cats: Seq<Seq<Seq<char>>>, l: Seq<Seq<Seq<char>>>) -> Seq<
    Seq<Seq<char>>,
> {
    group_scan(cats, l).0
}

/// The raw entries that the lines `ls` give: one per line that is not blank.
pub open spec fn raw_entries(ls: Seq<Seq<char>>) -> Seq<Seq<Seq<char>>>
    decreases ls.len(),
{
    if ls.len() == 0 {
        seq![]
    } else {
        let r = raw_entries(ls.drop_last());
        if has_visible(ls.last()) {
            r.push(seq![ls.last()])
        } else {
            r
        }
    }
}

/// The groups of a pass are never empty, and each recorded position is a valid
/// category and a valid group.
pub proof fn lemma_group_scan_sound(cats: Seq<Seq<Seq<char>>>, l: Seq<Seq<Seq<char>>>)
    ensures
        entries_nonempty(group_scan(cats, l).0),
        forall|k: nat| #[trigger]
            group_scan(cats, l).1.contains_key(k) ==> k < cats.len() && group_scan(cats, l).1[k]
                < group_scan(cats, l).0.len(),
    decreases l.len(),
{
    if l.len() > 0 {
        lemma_group_scan_sound(cats, l.drop_last());
        let e = l.last();
        if e.len() == 1 {
            lemma_classify_below(cats, words(e[0]), 0);
        }
        let (out, seen) = group_scan(cats, l);
        assert(entries_nonempty(out)) by {
            assert forall|i: int| 0 <= i < out.len() implies (#[trigger] out[i]).len() > 0 by {
                let prev = group_scan(cats, l.drop_last()).0;
                if i < prev.len() {
                    assert(prev[i].len() > 0);
                }
            }
        }
    }
}

/// Items that no category takes each become a group of their own, in their
/// original order: a list of such single-item entries consolidates to itself.
pub proof fn lemma_unmatched_stay(cats: Seq<Seq<Seq<char>>>, l: Seq<Seq<Seq<char>>>)
    requires
        forall|i: int|
            0 <= i < l.len() ==> (#[trigger] l[i]).len() == 1 && classify(cats, l[i][0]) is None,
    ensures
        consolidated(cats, l) == l,
    decreases l.len(),
{
    if l.len() > 0 {
        let prev = l.drop_last();
        assert forall|i: int| 0 <= i < prev.len() implies (#[trigger] prev[i]).len() == 1 && classify(
            cats,
            prev[i][0],
        ) is None by {
            assert(prev[i] == l[i]);
        }
        lemma_unmatched_stay(cats, prev);
        let e = l[l.len() - 1];
        assert(e.len() == 1);
        assert(seq![e[0]] =~= e);
        assert(prev.push(e) =~= l);
    }
}

/// Consolidation drops every entry that does not hold exactly one item: a list of
/// already grouped entries consolidates to the empty list.
pub proof fn lemma_grouped_dropped(cats: Seq<Seq<Seq<char>>>, l: Seq<Seq<Seq<char>>>)
    requires
        forall|i: int| 0 <= i < l.len() ==> (#[trigger] l[i]).len() != 1,
    ensures
        consolidated(cats, l) == Seq::<Seq<Seq<char>>>::empty(),
    decreases l.len(),
{
    if l.len() > 0 {
        let prev = l.drop_last();
        assert forall|i: int| 0 <= i < prev.len() implies (#[trigger] prev[i]).len() != 1 by {
            assert(prev[i] == l[i]);
        }
        lemma_grouped_dropped(cats, prev);
        assert(l.last() == l[l.len() - 1]);
    }
}

/// The entries of `l` that hold exactly one item, in order.
pub open spec fn single_entries(l: Seq<Seq<Seq<char>>>) -> Seq<Seq<Seq<char>>>
    decreases l.len(),
{
    if l.len() == 0 {
        seq![]
    } else {
        let r = single_entries(l.drop_last());
        if l.last().len() == 1 {
            r.push(l.last())
        } else {
            r
        }
    }
}

/// Each group that a pass builds stands where its category was recorded, as its
/// first item shows.
proof fn lemma_group_scan_first_items(cats: Seq<Seq<Seq<char>>>, l: Seq<Seq<Seq<char>>>)
    ensures
        forall|p: int|
            0 <= p < group_scan(cats, l).0.len() && (#[trigger] classify(
                cats,
                group_scan(cats, l).0[p][0],
            )) is Some ==> group_scan(cats, l).1.contains_key(
                classify(cats, group_scan(cats, l).0[p][0]).unwrap(),
            ) && group_scan(cats, l).1[classify(cats, group_scan(cats, l).0[p][0]).unwrap()] == p,
    decreases l.len(),
{
    if l.len() > 0 {
        let prev = l.drop_last();
        lemma_group_scan_first_items(cats, prev);
        lemma_group_scan_sound(cats, prev);
        let (out0, seen0) = group_scan(cats, prev);
        let (out, seen) = group_scan(cats, l);
        assert forall|p: int|
            0 <= p < out.len() && (#[trigger] classify(cats, out[p][0])) is Some implies seen.contains_key(
            classify(cats, out[p][0]).unwrap(),
        ) && seen[classify(cats, out[p][0]).unwrap()] == p by {
            if p < out0.len() {
                assert(out0[p].len() > 0);
                assert(out[p][0] == out0[p][0]);
            }
        }
    }
}

/// Where no two single-item entries share a category, a pass keeps exactly the
/// single-item entries, and every category it records comes from one of them.
proof fn lemma_distinct_singles_kept(cats: Seq<Seq<Seq<char>>>, l: Seq<Seq<Seq<char>>>)
    requires
        forall|i: int, j: int|
            0 <= i < j < l.len() && (#[trigger] l[i]).len() == 1 && (#[trigger] l[j]).len() == 1
                && classify(cats, l[i][0]) is Some ==> classify(cats, l[i][0]) != classify(
                cats,
                l[j][0],
            ),
    ensures
        consolidated(cats, l) == single_entries(l),
        forall|k: nat| #[trigger]
            group_scan(cats, l).1.contains_key(k) ==> exists|i: int|
                0 <= i < l.len() && (#[trigger] l[i]).len() == 1 && classify(cats, l[i][0]) == Some(
                    k,
                ),
    decreases l.len(),
{
    if l.len() > 0 {
        let prev = l.drop_last();
        assert forall|i: int, j: int|
            0 <= i < j < prev.len() && (#[trigger] prev[i]).len() == 1 && (#[trigger] prev[j]).len()
                == 1 && classify(cats, prev[i][0]) is Some implies classify(cats, prev[i][0])
            != classify(cats, prev[j][0]) by {
            assert(prev[i] == l[i] && prev[j] == l[j]);
        }
        lemma_distinct_singles_kept(cats, prev);
        let e = l.last();
        let last = l.len() - 1;
        assert(e == l[last]);
        if e.len() == 1 {
            assert(seq![e[0]] =~= e);
            match classify(cats, e[0]) {
                Some(k) => {
                    if group_scan(cats, prev).1.contains_key(k) {
                        let i = choose|i: int|
                            0 <= i < prev.len() && (#[trigger] prev[i]).len() == 1 && classify(
                                cats,
                                prev[i][0],
                            ) == Some(k);
                        assert(prev[i] == l[i]);
                        assert(false);
                    }
                    assert forall|k2: nat| #[trigger]
                        group_scan(cats, l).1.contains_key(k2) implies exists|i: int|
                        0 <= i < l.len() && (#[trigger] l[i]).len() == 1 && classify(cats, l[i][0])
                            == Some(k2) by {
                        if k2 != k {
                            let i = choose|i: int|
                                0 <= i < prev.len() && (#[trigger] prev[i]).len() == 1 && classify(
                                    cats,
                                    prev[i][0],
                                ) == Some(k2);
                            assert(prev[i] == l[i]);
                        }
                    }
                },
                None => {
                    assert forall|k2: nat| #[trigger]
                        group_scan(cats, l).1.contains_key(k2) implies exists|i: int|
                        0 <= i < l.len() && (#[trigger] l[i]).len() == 1 && classify(cats, l[i][0])
                            == Some(k2) by {
                        let i = choose|i: int|
                            0 <= i < prev.len() && (#[trigger] prev[i]).len() == 1 && classify(
                                cats,
                                prev[i][0],
                            ) == Some(k2);
                        assert(prev[i] == l[i]);
                    }
                },
            }
        } else {
            assert forall|k2: nat| #[trigger]
                group_scan(cats, l).1.contains_key(k2) implies exists|i: int|
                0 <= i < l.len() && (#[trigger] l[i]).len() == 1 && classify(cats, l[i][0]) == Some(
                    k2,
                ) by {
                let i = choose|i: int|
                    0 <= i < prev.len() && (#[trigger] prev[i]).len() == 1 && classify(
                        cats,
                        prev[i][0],
                    ) == Some(k2);
                assert(prev[i] == l[i]);
            }
        }
    }
}

/// Consolidating twice in a row keeps, of the first result, only its groups of a
/// single item, in order: every group of several items is lost.
pub proof fn lemma_consolidate_twice(cats: Seq<Seq<Seq<char>>>, l: Seq<Seq<Seq<char>>>)
    ensures
        consolidated(cats, consolidated(cats, l)) == single_entries(consolidated(cats, l)),
{
    let out = consolidated(cats, l);
    lemma_group_scan_first_items(cats, l);
    assert forall|i: int, j: int|
        0 <= i < j < out.len() && (#[trigger] out[i]).len() == 1 && (#[trigger] out[j]).len() == 1
            && classify(cats, out[i][0]) is Some implies classify(cats, out[i][0]) != classify(
        cats,
        out[j][0],
    ) by {
        let k = classify(cats, out[i][0]).unwrap();
        if classify(cats, out[j][0]) == Some(k) {
            assert(group_scan(cats, l).1[k] == i);
            assert(group_scan(cats, l).1[k] == j);
        }
    }
    lemma_distinct_singles_kept(cats, out);
}

/// The items of an entry joined by `sep`, in order.
pub open spec fn joined(items: Seq<Seq<char>>, sep: Seq<char>) -> Seq<char>
    decreases items.len(),
{
    if items.len() == 0 {
        seq![]
    } else if items.len() == 1 {
        items[0]
    } else {
        joined(items.drop_last(), sep) + sep + items.last()
    }
}

/// How an entry is shown: a bullet, then its items separated by commas.
pub open spec fn shown(entry: Seq<Seq<char>>) -> Seq<char> {
    seq!['*', ' '] + joined(entry, seq![',', ' '])
}

/// The command that asks to see the list.
pub open spec fn view_command() -> Seq<char> {
    seq!['/', 'v', 'i', 'e', 'w']
}

/// Whether `text` is the command that asks to see the list.
pub fn is_view_command(text: &str) -> (r: bool)
    ensures
        r == (text@ == view_command()),
{
    if text.unicode_len() != 5 {
        return false;
    }
    let r = text.get_char(0) == '/' && text.get_char(1) == 'v' && text.get_char(2) == 'i'
        && text.get_char(3) == 'e' && text.get_char(4) == 'w';
    assert(r ==> text@ =~= view_command());
    r
}

/// The line that shows `entry`: `* ` and its items separated by `, `.
pub fn show_entry(entry: &Vec<String>) -> (r: String)
    ensures
        r@ == shown(entry.deep_view()),
{
    let ghost items = entry.deep_view();
    let mut line = String::from_str("* ");
    proof {
        reveal_strlit("* ");
    }
    assert(line@ =~= seq!['*', ' '] + joined(items.take(0), seq![',', ' ']));
    let mut i: usize = 0;
    while i < entry.len()
        invariant
            items == entry.deep_view(),
            i <= entry.len(),
            line@ == seq!['*', ' '] + joined(items.take(i as int), seq![',', ' ']),
        decreases entry.len() - i,
    {
        assert(items.take(i + 1).drop_last() =~= items.take(i as int));
        assert(items.take(i + 1).last() == entry[i as int]@);
        let ghost start = line@;
        if i > 0 {
            line.append(", ");
            proof {
                reveal_strlit(", ");
            }
            assert(", "@ =~= seq![',', ' ']);
            assert(line@ == start + seq![',', ' ']);
        }
        let ghost mid = line@;
        line.append(entry[i].as_str());
        assert(line@ == mid + items[i as int]);
        proof {
            if i == 0 {
                assert(joined(items.take(1), seq![',', ' ']) == items.take(1)[0]);
                assert(joined(items.take(0), seq![',', ' ']) =~= Seq::<char>::empty());
            } else {
                assert(joined(items.take(i + 1), seq![',', ' ']) == joined(
                    items.take(i as int),
                    seq![',', ' '],
                ) + seq![',', ' '] + items[i as int]);
            }
        }
        assert(line@ =~= seq!['*', ' '] + joined(items.take(i + 1), seq![',', ' ']));
        i = i + 1;
    }
    assert(items.take(entry.len() as int) =~= items);
    line
}

/// A grocery list: an ordered sequence of entries, each an ordered sequence of items.
pub struct GroceryList {
    entries: Vec<Vec<String>>,
}

impl View for GroceryList {
    type V = Seq<Seq<Seq<char>>>;

    closed spec fn view(&self) -> Seq<Seq<Seq<char>>> {
        self.entries.deep_view()
    }
}

impl GroceryList {
    /// An empty list.
    pub fn new() -> (r: GroceryList)
        ensures
            r@ == Seq::<Seq<Seq<char>>>::empty(),
    {
        let r = GroceryList { entries: Vec::new() };
        assert(r@ =~= Seq::<Seq<Seq<char>>>::empty());
        r
    }

    /// The entries, in order.
    pub fn entries(&self) -> (r: &Vec<Vec<String>>)
        ensures
            r.deep_view() == self@,
    {
        &self.entries
    }

    /// Appends `line`, verbatim, as a new raw entry, unless it is blank.
    pub fn append_line(&mut self, line: &str)
        ensures
            has_visible(line@) ==> final(self)@ == old(self)@.push(seq![line@]),
            !has_visible(line@) ==> final(self)@ == old(self)@,
    {
        if has_visible_char(line) {
            let item = line.to_owned();
            let mut entry: Vec<String> = Vec::new();
            entry.push(item);
            assert(entry.deep_view() =~= seq![line@]);
            let ghost before = self@;
            self.entries.push(entry);
            assert(self@ =~= before.push(seq![line@]));
        }
    }

    /// Appends each line of `text` that is not blank, in order, as a raw entry.
    pub fn append_text(&mut self, text: &str)
        ensures
            final(self)@ == old(self)@ + raw_entries(pieces(text@, '\n')),
    {
        let lines = split_pieces(text, '\n');
        let ghost ls = lines.deep_view();
        let mut i: usize = 0;
        while i < lines.len()
            invariant
                ls == lines.deep_view(),
                ls == pieces(text@, '\n'),
                i <= lines.len(),
                self@ == old(self)@ + raw_entries(ls.take(i as int)),
            decreases lines.len() - i,
        {
            assert(ls.take(i + 1).drop_last() =~= ls.take(i as int));
            assert(lines[i as int]@ == ls[i as int]);
            self.append_line(lines[i].as_str());
            proof {
                let r = raw_entries(ls.take(i as int));
                assert((old(self)@ + r).push(seq![ls[i as int]]) =~= old(self)@ + r.push(
                    seq![ls[i as int]],
                ));
            }
            i = i + 1;
        }
        assert(ls.take(lines.len() as int) =~= ls);
    }

    /// Rewrites the list into groups by category, in the order in which each group
    /// first appeared. Entries that already hold several items are dropped, so a
    /// second consolidation in a row erases the groups that the first one built.
    pub fn consolidate(&mut self, filter: &RulesFilter)
        ensures
            final(self)@ == consolidated(filter@, old(self)@),
            entries_nonempty(final(self)@),
    {
        let ghost cats = filter@;
        let ghost l = self@;
        let n_cats = filter.len();
        let mut slots: Vec<Option<usize>> = Vec::new();
        while slots.len() < n_cats
            invariant
                n_cats == cats.len(),
                slots.len() <= n_cats,
                forall|k: int| 0 <= k < slots.len() ==> slots[k] is None,
            decreases n_cats - slots.len(),
        {
            slots.push(None);
        }
        let mut out: Vec<Vec<String>> = Vec::new();
        let mut i: usize = 0;
        while i < self.entries.len()
            invariant
                l == self@,
                cats == filter@,
                n_cats == cats.len(),
                slots.len() == n_cats,
                i <= self.entries.len(),
                out.deep_view() == group_scan(cats, l.take(i as int)).0,
                forall|k: int|
                    0 <= k < slots.len() ==> (#[trigger] slots[k] is Some <==> group_scan(
                        cats,
                        l.take(i as int),
                    ).1.contains_key(k as nat)),
                forall|k: int|
                    0 <= k < slots.len() && #[trigger] slots[k] is Some ==> slots[k].unwrap()
                        == group_scan(cats, l.take(i as int)).1[k as nat] && slots[k].unwrap()
                        < out.len(),
            decreases self.entries.len() - i,
        {
            let ghost prev = l.take(i as int);
            assert(l.take(i + 1).drop_last() =~= prev);
            assert(l.take(i + 1).last() == l[i as int]);
            proof {
                lemma_group_scan_sound(cats, prev);
            }
            let entry_line = &self.entries[i];
            assert(entry_line.deep_view() == l[i as int]);
            if entry_line.len() == 1 {
                let item = &entry_line[0];
                assert(item@ == l[i as int][0]);
                let ghost before = out.deep_view();
                match filter.look_up_item(item.as_str()) {
                    Some(k) => {
                        match slots[k] {
                            Some(idx) => {
                                let mut group: Vec<String> = Vec::new();
                                out.set_and_swap(idx, &mut group);
                                assert(group.deep_view() == before[idx as int]);
                                let ghost grown = group.deep_view().push(item@);
                                group.push(item.clone());
                                assert(group.deep_view() =~= grown);
                                out.set(idx, group);
                                assert(out.deep_view() =~= before.update(
                                    idx as int,
                                    before[idx as int].push(item@),
                                ));
                            },
                            None => {
                                let mut group: Vec<String> = Vec::new();
                                group.push(item.clone());
                                assert(group.deep_view() =~= seq![item@]);
                                slots.set(k, Some(out.len()));
                                out.push(group);
                                assert(out.deep_view() =~= before.push(seq![item@]));
                            },
                        }
                    },
                    None => {
                        let mut group: Vec<String> = Vec::new();
                        group.push(item.clone());
                        assert(group.deep_view() =~= seq![item@]);
                        out.push(group);
                        assert(out.deep_view() =~= before.push(seq![item@]));
                    },
                }
            }
            i = i + 1;
        }
        assert(l.take(l.len() as int) =~= l);
        proof {
            lemma_group_scan_sound(cats, l);
        }
        self.entries = out;
    }

    /// Handles one incoming text message and returns the replies to send. The view
    /// command consolidates the list first and gives one line per entry, in order.
    /// Then every line of the message that is not blank, the command included, is
    /// appended as a raw entry.
    pub fn handle_message(&mut self, filter: &RulesFilter, text: &str) -> (replies: Vec<String>)
        ensures
            text@ == view_command() ==> final(self)@ == consolidated(filter@, old(self)@)
                + raw_entries(pieces(text@, '\n')) && replies.deep_view() == consolidated(
                filter@,
                old(self)@,
            ).map_values(|e: Seq<Seq<char>>| shown(e)),
            text@ != view_command() ==> final(self)@ == old(self)@ + raw_entries(
                pieces(text@, '\n'),
            ) && replies.deep_view() == Seq::<Seq<char>>::empty(),
    {
        let mut replies: Vec<String> = Vec::new();
        if is_view_command(text) {
            self.consolidate(filter);
            let ghost groups = self@;
            let mut i: usize = 0;
            while i < self.entries.len()
                invariant
                    groups == self@,
                    groups == self.entries.deep_view(),
                    i <= self.entries.len(),
                    replies.deep_view() =~= groups.take(i as int).map_values(
                        |e: Seq<Seq<char>>| shown(e),
                    ),
                decreases self.entries.len() - i,
            {
                let line = show_entry(&self.entries[i]);
                let ghost before = replies.deep_view();
                replies.push(line);
                assert(replies.deep_view() =~= before.push(line@));
                assert(groups.take(i + 1) =~= groups.take(i as int).push(groups[i as int]));
                i = i + 1;
            }
            assert(groups.take(groups.len() as int) =~= groups);
        }
        self.append_text(text);
        replies
    }
}

} // verus!
