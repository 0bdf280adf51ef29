use vstd::prelude::*;

use crate::text::{pieces, split_pieces, split_words, words};

verus! {

/// The first category, from index `k` on, whose keywords hold `w`.
pub open spec fn category_from(cats: Seq<Seq<Seq<char>>>, w: Seq<char>, k: int) -> Option<nat>
    decreases cats.len() - k,
{
    if k < 0 || k >= cats.len() {
        None
    } else if cats[k].contains(w) {
        Some(k as nat)
    } else {
        category_from(cats, w, k + 1)
    }
}

/// The lowest-indexed category whose keywords hold `w`.
pub open spec fn category_of(cats: Seq<Seq<Seq<char>>>, w: Seq<char>) -> Option<nat> {
    category_from(cats, w, 0)
}

/// The category of the first word, from position `p` on, that some category holds.
pub open spec fn classify_from(cats: Seq<Seq<Seq<char>>>, ws: Seq<Seq<char>>, p: int) -> Option<
    nat,
>
    decreases ws.len() - p,
{
    if p < 0 || p >= ws.len() {
        None
    } else {
        match category_of(cats, ws[p]) {
            Some(k) => Some(k),
            None => classify_from(cats, ws, p + 1),
        }
    }
}

/// How an entry's text is classified: its words are tried left to right, and the
/// first one that some category holds decides, by the lowest such category.
pub open spec fn classify(cats: Seq<Seq<Seq<char>>>, text: Seq<char>) -> Option<nat> {
    classify_from(cats, words(text), 0)
}

/// The categories that a configuration text describes: one per line, each holding
/// the line's whitespace-separated words.
pub open spec fn parse_categories(config: Seq<char>) -> Seq<Seq<Seq<char>>> {
    pieces(config, '\n').map_values(|line: Seq<char>| words(line))
}

/// An ordered sequence of keyword categories; a category's index is its identity.
pub struct RulesFilter {
    boxes: Vec<Vec<String>>,
}

impl View for RulesFilter {
    type V = Seq<Seq<Seq<char>>>;

    closed spec fn view(&self) -> Seq<Seq<Seq<char>>> {
        self.boxes.deep_view()
    }
}

impl RulesFilter {
    /// Builds the categories from a configuration text: one category per line,
    /// keywords separated by whitespace. An empty line gives an empty category.
    pub fn build_filter(config: &str) -> (r: RulesFilter)
        ensures
            r@ == parse_categories(config@),
    {
        let lines = split_pieces(config, '\n');
        let ghost ls = lines.deep_view();
        let mut boxes: Vec<Vec<String>> = Vec::new();
        let mut i: usize = 0;
        while i < lines.len()
            invariant
                ls == lines.deep_view(),
                ls == pieces(config@, '\n'),
                i <= lines.len(),
                boxes.deep_view() =~= ls.take(i as int).map_values(|line: Seq<char>| words(line)),
            decreases lines.len() - i,
        {
            let keywords = split_words(lines[i].as_str());
            let ghost before = boxes.deep_view();
            boxes.push(keywords);
            assert(boxes.deep_view() =~= before.push(keywords.deep_view()));
            assert(ls.take(i + 1) =~= ls.take(i as int).push(ls[i as int]));
            i = i + 1;
        }
        assert(ls.take(lines.len() as int) =~= ls);
        RulesFilter { boxes }
    }

    /// The categories given, in order; `cats[k]` is category `k`.
    pub fn from_categories(cats: Vec<Vec<String>>) -> (r: RulesFilter)
        ensures
            r@ == cats.deep_view(),
    {
        RulesFilter { boxes: cats }
    }

    /// The number of categories.
    pub fn len(&self) -> (r: usize)
        ensures
            r == self@.len(),
    {
        self.boxes.len()
    }

    /// The lowest index of a category whose keywords hold `word`.
    fn box_of(&self, word: &String) -> (r: Option<usize>)
        ensures
            match category_of(self@, word@) {
                Some(k) => r == Some(k as usize),
                None => r is None,
            },
    {
        let n = self.boxes.len();
        let mut k: usize = 0;
        while k < n
            invariant
                n == self@.len(),
                k <= n,
                category_from(self@, word@, k as int) == category_of(self@, word@),
            decreases n - k,
        {
            let a_box = &self.boxes[k];
            let ghost kws = a_box.deep_view();
            assert(kws == self@[k as int]);
            let mut j: usize = 0;
            while j < a_box.len()
                invariant
                    kws == a_box.deep_view(),
                    kws == self@[k as int],
                    category_from(self@, word@, k as int) == category_of(self@, word@),
                    k < n,
                    n == self@.len(),
                    j <= a_box.len(),
                    forall|q: int| 0 <= q < j ==> kws[q] != word@,
                decreases a_box.len() - j,
            {
                if a_box[j] == *word {
                    assert(kws[j as int] == word@);
                    assert(self@[k as int].contains(word@));
                    return Some(k);
                }
                j = j + 1;
            }
            assert(!kws.contains(word@));
            k = k + 1;
        }
        None
    }

    /// The category of `entry`: its words are tried left to right, and the first
    /// word that some category holds decides, by the lowest such category. A later
    /// word never overrides an earlier one.
    pub fn look_up_item(&self, entry: &str) -> (r: Option<usize>)
        ensures
            match classify(self@, entry@) {
                Some(k) => r == Some(k as usize) && k < self@.len(),
                None => r is None,
            },
    {
        let ws = split_words(entry);
        let ghost wv = ws.deep_view();
        let mut p: usize = 0;
        while p < ws.len()
            invariant
                wv == ws.deep_view(),
                wv == words(entry@),
                p <= ws.len(),
                classify_from(self@, wv, p as int) == classify(self@, entry@),
            decreases ws.len() - p,
        {
            assert(wv[p as int] == ws[p as int]@);
            match self.box_of(&ws[p]) {
                Some(k) => {
                    proof {
                        lemma_category_below(self@, wv[p as int], 0);
                    }
                    return Some(k);
                },
                None => {},
            }
            p = p + 1;
        }
        None
    }
}

/// A category found from index `k` on is a valid index.
pub proof fn lemma_category_below(cats: Seq<Seq<Seq<char>>>, w: Seq<char>, k: int)
    ensures
        match category_from(cats, w, k) {
            Some(j) => k <= j < cats.len() && cats[j as int].contains(w),
            None => true,
        },
    decreases cats.len() - k,
{
    if 0 <= k < cats.len() && !cats[k].contains(w) {
        lemma_category_below(cats, w, k + 1);
    }
}

/// A category found for a text is a valid index.
pub proof fn lemma_classify_below(cats: Seq<Seq<Seq<char>>>, ws: Seq<Seq<char>>, p: int)
    ensures
        match classify_from(cats, ws, p) {
            Some(k) => k < cats.len(),
            None => true,
        },
    decreases ws.len() - p,
{
    if 0 <= p < ws.len() {
        lemma_category_below(cats, ws[p], 0);
        lemma_classify_below(cats, ws, p + 1);
    }
}

/// Whether category `j` holds the keyword `w`.
pub open spec fn in_category(cats: Seq<Seq<Seq<char>>>, j: int, w: Seq<char>) -> bool {
    0 <= j < cats.len() && cats[j].contains(w)
}

/// Whether some category holds the keyword `w`.
pub open spec fn is_keyword(cats: Seq<Seq<Seq<char>>>, w: Seq<char>) -> bool {
    exists|j: int| #[trigger] in_category(cats, j, w)
}

proof fn lemma_category_from_exact(cats: Seq<Seq<Seq<char>>>, w: Seq<char>, k0: int, k: int)
    requires
        0 <= k0,
    ensures
        category_from(cats, w, k0) == Some(k as nat) && k >= 0 <==> (k0 <= k && in_category(
            cats,
            k,
            w,
        ) && forall|j: int| k0 <= j < k ==> !#[trigger] in_category(cats, j, w)),
        category_from(cats, w, k0) is None <==> forall|j: int|
            k0 <= j ==> !#[trigger] in_category(cats, j, w),
    decreases cats.len() - k0,
{
    if k0 < cats.len() {
        lemma_category_from_exact(cats, w, k0 + 1, k);
        if in_category(cats, k0, w) {
        } else {
            assert((forall|j: int| k0 + 1 <= j < k ==> !#[trigger] in_category(cats, j, w)) ==> (
            forall|j: int| k0 <= j < k ==> !#[trigger] in_category(cats, j, w)));
            assert((forall|j: int| k0 + 1 <= j ==> !#[trigger] in_category(cats, j, w)) ==> (
            forall|j: int| k0 <= j ==> !#[trigger] in_category(cats, j, w)));
        }
    }
}

proof fn lemma_classify_from_exact(cats: Seq<Seq<Seq<char>>>, ws: Seq<Seq<char>>, p0: int, k: nat)
    requires
        0 <= p0,
    ensures
        classify_from(cats, ws, p0) == Some(k) <==> exists|p: int|
            #![trigger category_of(cats, ws[p])]
            p0 <= p < ws.len() && (forall|q: int|
                p0 <= q < p ==> !is_keyword(cats, #[trigger] ws[q])) && category_of(cats, ws[p])
                == Some(k),
    decreases ws.len() - p0,
{
    if p0 < ws.len() {
        lemma_classify_from_exact(cats, ws, p0 + 1, k);
        lemma_category_from_exact(cats, ws[p0], 0, 0);
        if category_of(cats, ws[p0]) is None {
            assert(!is_keyword(cats, ws[p0]));
            if classify_from(cats, ws, p0) == Some(k) {
                let p = choose|p: int|
                    #![trigger category_of(cats, ws[p])]
                    p0 + 1 <= p < ws.len() && (forall|q: int|
                        p0 + 1 <= q < p ==> !is_keyword(cats, #[trigger] ws[q])) && category_of(
                        cats,
                        ws[p],
                    ) == Some(k);
                assert forall|q: int| p0 <= q < p implies !is_keyword(cats, #[trigger] ws[q]) by {
                    if q == p0 {
                    }
                }
            }
            if exists|p: int|
                #![trigger category_of(cats, ws[p])]
                p0 <= p < ws.len() && (forall|q: int|
                    p0 <= q < p ==> !is_keyword(cats, #[trigger] ws[q])) && category_of(cats, ws[p])
                    == Some(k) {
                let p = choose|p: int|
                    #![trigger category_of(cats, ws[p])]
                    p0 <= p < ws.len() && (forall|q: int|
                        p0 <= q < p ==> !is_keyword(cats, #[trigger] ws[q])) && category_of(
                        cats,
                        ws[p],
                    ) == Some(k);
                assert(p != p0);
            }
        } else {
            let c = category_of(cats, ws[p0]).unwrap();
            lemma_category_from_exact(cats, ws[p0], 0, c as int);
            assert(is_keyword(cats, ws[p0]));
            if exists|p: int|
                #![trigger category_of(cats, ws[p])]
                p0 <= p < ws.len() && (forall|q: int|
                    p0 <= q < p ==> !is_keyword(cats, #[trigger] ws[q])) && category_of(cats, ws[p])
                    == Some(k) {
                let p = choose|p: int|
                    #![trigger category_of(cats, ws[p])]
                    p0 <= p < ws.len() && (forall|q: int|
                        p0 <= q < p ==> !is_keyword(cats, #[trigger] ws[q])) && category_of(
                        cats,
                        ws[p],
                    ) == Some(k);
                if p != p0 {
                    assert(!is_keyword(cats, ws[p0]));
                }
            }
        }
    }
}

/// The tie-break of classification: a text falls in category `k` exactly when some
/// word of it is a keyword of `k` and of no category below `k`, and no word before
/// it is a keyword of any category. Word position decides first, category index
/// second; a later word never overrides an earlier one.
pub proof fn lemma_classify_word_first(cats: Seq<Seq<Seq<char>>>, text: Seq<char>, k: nat)
    ensures
        classify(cats, text) == Some(k) <==> exists|p: int|
            #![trigger words(text)[p]]
            0 <= p < words(text).len() && (forall|q: int|
                0 <= q < p ==> !is_keyword(cats, #[trigger] words(text)[q])) && in_category(
                cats,
                k as int,
                words(text)[p],
            ) && (forall|j: int| 0 <= j < k ==> !#[trigger] in_category(cats, j, words(text)[p])),
{
    let ws = words(text);
    lemma_classify_from_exact(cats, ws, 0, k);
    if classify(cats, text) == Some(k) {
        let p = choose|p: int|
            #![trigger category_of(cats, ws[p])]
            0 <= p < ws.len() && (forall|q: int| 0 <= q < p ==> !is_keyword(cats, #[trigger] ws[q]))
                && category_of(cats, ws[p]) == Some(k);
        lemma_category_from_exact(cats, ws[p], 0, k as int);
        assert(ws[p] == words(text)[p]);
    }
    if exists|p: int|
        #![trigger words(text)[p]]
        0 <= p < words(text).len() && (forall|q: int|
            0 <= q < p ==> !is_keyword(cats, #[trigger] words(text)[q])) && in_category(
            cats,
            k as int,
            words(text)[p],
        ) && (forall|j: int| 0 <= j < k ==> !#[trigger] in_category(cats, j, words(text)[p])) {
        let p = choose|p: int|
            #![trigger words(text)[p]]
            0 <= p < words(text).len() && (forall|q: int|
                0 <= q < p ==> !is_keyword(cats, #[trigger] words(text)[q])) && in_category(
                cats,
                k as int,
                words(text)[p],
            ) && (forall|j: int| 0 <= j < k ==> !#[trigger] in_category(cats, j, words(text)[p]));
        lemma_category_from_exact(cats, ws[p], 0, k as int);
        assert(category_of(cats, ws[p]) == Some(k));
    }
}

} // verus!
