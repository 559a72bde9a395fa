use vstd::prelude::*;
use vstd::multiset::Multiset;
use vstd::relations::{sorted_by, total_ordering};
use vstd::seq_lib::lemma_sorted_unique;
use crate::cmd::texts;
use crate::order::{compare_text, insert_sorted, strictly_sorted, text_lt};
use crate::text::{chars_of, same_text};

verus! {

/// The lowercase form of a text, character by character under Unicode's
/// case mapping.
pub uninterp spec fn lower_of(s: Seq<char>) -> Seq<char>;

/// Relies on `str::to_lowercase`: Unicode lowercase mapping, which depends on
/// the characters alone.
#[verifier::external_body]
fn lowercase(s: &str) -> (r: String)
    ensures
        r@ == lower_of(s@),
{
    s.to_lowercase()
}

pub open spec fn char_le(a: char, b: char) -> bool {
    a <= b
}

/// Relies on `slice::sort_unstable` for `char`: the same characters, in
/// ascending order of code point.
#[verifier::external_body]
fn sort_chars(v: &mut Vec<char>)
    ensures
        final(v)@.to_multiset() == old(v)@.to_multiset(),
        sorted_by(final(v)@, |a: char, b: char| char_le(a, b)),
{
    v.sort_unstable()
}

/// The lowercase forms of the words `w`.
pub open spec fn lowercase_forms(w: Seq<&str>) -> Seq<Seq<char>> {
    Seq::new(w.len(), |j: int| lower_of(w[j]@))
}

/// The lowercase form of the `j`-th word, among the forms `w`.
pub open spec fn lower_word(w: Seq<Seq<char>>, j: int) -> Seq<char> {
    w[j]
}

/// Whether equal words have equal lowercase forms in `lows`.
pub open spec fn forms_agree(words: Seq<&str>, lows: Seq<Seq<char>>) -> bool {
    &&& words.len() == lows.len()
    &&& forall|i: int, j: int|
        0 <= i < words.len() && 0 <= j < words.len() && #[trigger] words[i]@ == #[trigger] words[j]@
            ==> lows[i] == lows[j]
}

/// The letters of the `j`-th word, lowercased, with their counts: two words
/// are anagrams when these are equal.
pub open spec fn class(w: Seq<Seq<char>>, j: int) -> Multiset<char> {
    lower_word(w, j).to_multiset()
}

/// Whether the `f`-th word is the first of its anagram class.
pub open spec fn first_of_class(w: Seq<Seq<char>>, f: int) -> bool {
    &&& 0 <= f < w.len()
    &&& forall|j: int| 0 <= j < f ==> class(w, j) != class(w, f)
}

/// Whether `y` is the lowercase form of a word of the `f`-th word's class.
pub open spec fn is_form(w: Seq<Seq<char>>, f: int, y: Seq<char>) -> bool {
    exists|j: int| 0 <= j < w.len() && class(w, j) == class(w, f) && #[trigger] lower_word(w, j) == y
}

/// Whether the `f`-th word's class holds two different lowercase forms.
pub open spec fn two_forms(w: Seq<Seq<char>>, f: int) -> bool {
    exists|i: int, j: int|
        0 <= i < w.len() && 0 <= j < w.len() && class(w, i) == class(w, f) && class(w, j) == class(
            w,
            f,
        ) && #[trigger] lower_word(w, i) != #[trigger] lower_word(w, j)
}

/// The anagram groups of a word list: for each class of words that are
/// anagrams of each other (ignoring case) and that has at least two
/// different lowercase forms, the first word of the class as written, and the
/// class's lowercase forms, each once, in ascending order.
pub struct Anagrams {
    groups: Vec<(String, Vec<String>)>,
}

impl View for Anagrams {
    type V = Seq<(Seq<char>, Seq<Seq<char>>)>;

    closed spec fn view(&self) -> Seq<(Seq<char>, Seq<Seq<char>>)> {
        self.groups@.map_values(|g: (String, Vec<String>)| (g.0@, texts(g.1@)))
    }
}

/// Whether `m` is the ascending list of the `f`-th word's class forms.
pub open spec fn group_of(w: Seq<Seq<char>>, f: int, m: Seq<Seq<char>>) -> bool {
    &&& strictly_sorted(m)
    &&& m.len() > 1
    &&& forall|y: Seq<char>| #[trigger] m.contains(y) <==> is_form(w, f, y)
}

/// Whether `r[g]` is the group of the first word of some class of `w`.
pub open spec fn listed_group(
    words: Seq<&str>,
    w: Seq<Seq<char>>,
    r: Seq<(Seq<char>, Seq<Seq<char>>)>,
    g: int,
) -> bool {
    exists|f: int| first_of_class(w, f) && r[g].0 == words[f]@ && #[trigger] group_of(w, f, r[g].1)
}

/// Whether `r` lists exactly the anagram groups of `w`, once each.
pub open spec fn anagram_groups(
    words: Seq<&str>,
    w: Seq<Seq<char>>,
    r: Seq<(Seq<char>, Seq<Seq<char>>)>,
) -> bool {
    &&& forall|g: int| 0 <= g < r.len() ==> #[trigger] listed_group(words, w, r, g)
    &&& forall|f: int|
        first_of_class(w, f) && two_forms(w, f) ==> exists|g: int|
            0 <= g < r.len() && #[trigger] r[g].0 == words[f]@
    &&& forall|g: int, h: int| 0 <= g < h < r.len() ==> #[trigger] r[g].0 != #[trigger] r[h].0
}

impl Anagrams {
    /// The number of groups.
    pub fn len(&self) -> (r: usize)
        ensures
            r == self@.len(),
    {
        self.groups.len()
    }

    /// The forms of the group whose first word is `first`, if there is one.
    pub fn get(&self, first: &str) -> (r: Option<&Vec<String>>)
        ensures
            match r {
                Some(m) => exists|g: int|
                    0 <= g < self@.len() && self@[g].0 == first@ && #[trigger] self@[g].1
                        == texts(m@),
                None => forall|g: int| 0 <= g < self@.len() ==> #[trigger] self@[g].0 != first@,
            },
    {
        let mut i: usize = 0;
        while i < self.groups.len()
            invariant
                i <= self@.len(),
                self@.len() == self.groups@.len(),
                forall|g: int| 0 <= g < i ==> #[trigger] self@[g].0 != first@,
            decreases self.groups@.len() - i,
        {
            proof {
                assert(self@[i as int].0 == self.groups@[i as int].0@);
            }
            if same_text(self.groups[i].0.as_str(), first) {
                proof {
                    assert(self@[i as int].1 == texts(self.groups@[i as int].1@));
                }
                return Some(&self.groups[i].1);
            }
            i += 1;
        }
        None
    }
}

struct Entry {
    key: Vec<char>,
    first: String,
    members: Vec<String>,
}

/// Whether `y` is the lowercase form of one of the first `i` words in the
/// `f`-th word's class.
spec fn form_before(w: Seq<Seq<char>>, i: int, f: int, y: Seq<char>) -> bool {
    exists|j: int| 0 <= j < i && class(w, j) == class(w, f) && #[trigger] lower_word(w, j) == y
}

/// The entry of the class of the `f`-th word, after `i` words.
spec fn entry_ok(words: Seq<&str>, w: Seq<Seq<char>>, i: int, f: int, en: Entry) -> bool {
    &&& 0 <= f < i
    &&& first_of_class(w, f)
    &&& sorted_by(en.key@, |a: char, b: char| char_le(a, b))
    &&& en.key@.to_multiset() == class(w, f)
    &&& en.first@ == words[f]@
    &&& strictly_sorted(texts(en.members@))
    &&& forall|y: Seq<char>| #[trigger] texts(en.members@).contains(y) <==> form_before(w, i, f, y)
}

spec fn covered(w: Seq<Seq<char>>, firsts: Seq<int>, j: int) -> bool {
    exists|e: int| 0 <= e < firsts.len() && #[trigger] class(w, firsts[e]) == class(w, j)
}

proof fn lemma_char_le_total()
    ensures
        total_ordering(|a: char, b: char| char_le(a, b)),
{
}

fn same_chars(a: &Vec<char>, b: &Vec<char>) -> (r: bool)
    ensures
        r == (a@ == b@),
{
    if a.len() != b.len() {
        return false;
    }
    let mut i: usize = 0;
    while i < a.len()
        invariant
            a@.len() == b@.len(),
            i <= a@.len(),
            a@.subrange(0, i as int) == b@.subrange(0, i as int),
        decreases a@.len() - i,
    {
        if a[i] != b[i] {
            return false;
        }
        proof {
            assert(a@.subrange(0, i + 1) =~= a@.subrange(0, i as int).push(a@[i as int]));
            assert(b@.subrange(0, i + 1) =~= b@.subrange(0, i as int).push(b@[i as int]));
        }
        i += 1;
    }
    proof {
        assert(a@ =~= a@.subrange(0, i as int));
        assert(b@ =~= b@.subrange(0, i as int));
    }
    true
}

fn find_entry(entries: &Vec<Entry>, key: &Vec<char>) -> (r: Option<usize>)
    ensures
        match r {
            Some(e) => e < entries@.len() && entries@[e as int].key@ == key@,
            None => forall|e: int| 0 <= e < entries@.len() ==> #[trigger] entries@[e].key@ != key@,
        },
{
    let mut e: usize = 0;
    while e < entries.len()
        invariant
            e <= entries@.len(),
            forall|k: int| 0 <= k < e ==> #[trigger] entries@[k].key@ != key@,
        decreases entries@.len() - e,
    {
        if same_chars(&entries[e].key, key) {
            return Some(e);
        }
        e += 1;
    }
    None
}

/// Groups words that are anagrams of each other by their lowercase forms
/// `lowers` (one per word, equal for equal words). Each group is listed
/// under the first of its words as written, with the lowercase forms of its
/// words, each once, in ascending order; classes with only one lowercase
/// form are left out.
pub fn group_anagrams(words: &[&str], lowers: &Vec<String>) -> (r: Anagrams)
    requires
        forms_agree(words@, texts(lowers@)),
    ensures
        anagram_groups(words@, texts(lowers@), r@),
{
    let ghost w = texts(lowers@);
    let ghost ws = words@;
    let mut entries: Vec<Entry> = Vec::new();
    let ghost mut firsts: Seq<int> = Seq::empty();
    let mut i: usize = 0;
    while i < words.len()
        invariant
            w == texts(lowers@),
            ws == words@,
            w.len() == ws.len(),
            i <= w.len(),
            firsts.len() == entries@.len(),
            forall|e: int| 0 <= e < firsts.len() ==> entry_ok(ws, w, i as int, firsts[e], #[trigger] entries@[e]),
            forall|e1: int, e2: int|
                0 <= e1 < e2 < firsts.len() ==> class(w, #[trigger] firsts[e1]) != class(w, #[trigger] firsts[e2]),
            forall|j: int| 0 <= j < i ==> #[trigger] covered(w, firsts, j),
        decreases w.len() - i,
    {
        let word: &str = words[i];
        let lower = lowers[i].clone();
        let mut key = chars_of(lower.as_str());
        sort_chars(&mut key);
        proof {
            assert(lower@ == lower_word(w, i as int));
            assert(key@.to_multiset() == class(w, i as int));
        }
        match find_entry(&entries, &key) {
            Some(e) => {
                let ghost f = firsts[e as int];
                let ghost old_entries = entries@;
                proof {
                    assert(entry_ok(ws, w, i as int, f, entries@[e as int]));
                    assert(class(w, f) == class(w, i as int));
                }
                let mut en = entries.remove(e);
                let ghost m0 = texts(en.members@);
                insert_sorted(&mut en.members, lower);
                entries.insert(e, en);
                proof {
                    assert(entries@ =~= old_entries.update(e as int, en));
                    assert forall|k: int| 0 <= k < firsts.len() implies entry_ok(ws, w,
                        i + 1,
                        firsts[k],
                        #[trigger] entries@[k],
                    ) by {
                        let g = firsts[k];
                        assert(entry_ok(ws, w, i as int, g, old_entries[k]));
                        assert forall|y: Seq<char>| #[trigger]
                            texts(entries@[k].members@).contains(y) <==> form_before(
                                w,
                                i + 1,
                                g,
                                y,
                            ) by {
                            if form_before(w, i + 1, g, y) {
                                let j = choose|j: int|
                                    0 <= j < i + 1 && class(w, j) == class(w, g) && #[trigger] lower_word(
                                        w,
                                        j,
                                    ) == y;
                                if j < i {
                                    assert(form_before(w, i as int, g, y));
                                }
                            }
                            if k == e {
                                if y == lower@ {
                                    assert(lower_word(w, i as int) == y);
                                }
                                if form_before(w, i as int, g, y) {
                                    let j = choose|j: int|
                                        0 <= j < i && class(w, j) == class(w, g) && #[trigger] lower_word(w, j) == y;
                                    assert(lower_word(w, j) == y);
                                }
                            } else {
                                if k < e {
                                    assert(class(w, firsts[k]) != class(w, firsts[e as int]));
                                } else {
                                    assert(class(w, firsts[e as int]) != class(w, firsts[k]));
                                }
                                if form_before(w, i as int, g, y) {
                                    let j = choose|j: int|
                                        0 <= j < i && class(w, j) == class(w, g) && #[trigger] lower_word(w, j) == y;
                                    assert(lower_word(w, j) == y);
                                }
                            }
                        }
                    }
                    assert(covered(w, firsts, i as int)) by {
                        assert(class(w, firsts[e as int]) == class(w, i as int));
                    }
                }
            },
            None => {
                proof {
                    lemma_char_le_total();
                    assert forall|k: int| 0 <= k < firsts.len() implies class(w, #[trigger] firsts[k])
                        != class(w, i as int) by {
                        assert(entry_ok(ws, w, i as int, firsts[k], entries@[k]));
                        if class(w, firsts[k]) == class(w, i as int) {
                            lemma_sorted_unique(
                                entries@[k].key@,
                                key@,
                                |a: char, b: char| char_le(a, b),
                            );
                        }
                    }
                    assert forall|j: int| 0 <= j < i implies class(w, j) != class(w, i as int) by {
                        assert(covered(w, firsts, j));
                        let k = choose|k: int| 0 <= k < firsts.len() && #[trigger] class(w, firsts[k]) == class(w, j);
                    }
                }
                let ghost old_entries = entries@;
                let ghost old_firsts = firsts;
                let mut members: Vec<String> = Vec::new();
                members.push(lower);
                let en = Entry { key, first: word.to_owned(), members };
                entries.push(en);
                proof {
                    firsts = firsts.push(i as int);
                    assert(strictly_sorted(texts(en.members@)));
                    assert forall|k: int| 0 <= k < firsts.len() implies entry_ok(ws, w,
                        i + 1,
                        firsts[k],
                        #[trigger] entries@[k],
                    ) by {
                        let g = firsts[k];
                        if k < old_firsts.len() {
                            assert(entries@[k] == old_entries[k]);
                            assert(entry_ok(ws, w, i as int, g, old_entries[k]));
                            assert forall|y: Seq<char>| #[trigger]
                                texts(entries@[k].members@).contains(y) <==> form_before(
                                    w,
                                    i + 1,
                                    g,
                                    y,
                                ) by {
                                if form_before(w, i + 1, g, y) {
                                    let j = choose|j: int|
                                        0 <= j < i + 1 && class(w, j) == class(w, g) && #[trigger] lower_word(
                                            w,
                                            j,
                                        ) == y;
                                    if j < i {
                                        assert(form_before(w, i as int, g, y));
                                    } else {
                                        assert(class(w, old_firsts[k]) != class(w, i as int));
                                    }
                                }
                                if form_before(w, i as int, g, y) {
                                    let j = choose|j: int|
                                        0 <= j < i && class(w, j) == class(w, g) && #[trigger] lower_word(w, j) == y;
                                    assert(lower_word(w, j) == y);
                                }
                            }
                        } else {
                            assert(g == i);
                            assert(texts(entries@[k].members@) =~= seq![lower@]);
                            assert forall|y: Seq<char>| #[trigger]
                                texts(entries@[k].members@).contains(y) <==> form_before(
                                    w,
                                    i + 1,
                                    g,
                                    y,
                                ) by {
                                if form_before(w, i + 1, g, y) {
                                    let j = choose|j: int|
                                        0 <= j < i + 1 && class(w, j) == class(w, g) && #[trigger] lower_word(
                                            w,
                                            j,
                                        ) == y;
                                    assert(j == i);
                                    assert(texts(entries@[k].members@)[0] == y);
                                }
                                if texts(entries@[k].members@).contains(y) {
                                    assert(lower_word(w, i as int) == y);
                                }
                            }
                        }
                    }
                    assert forall|e1: int, e2: int|
                        0 <= e1 < e2 < firsts.len() implies class(w, #[trigger] firsts[e1]) != class(
                            w,
                            #[trigger] firsts[e2],
                        ) by {
                        if e2 == old_firsts.len() {
                            assert(class(w, old_firsts[e1]) != class(w, i as int));
                        } else {
                            assert(class(w, old_firsts[e1]) != class(w, old_firsts[e2]));
                        }
                    }
                    assert forall|j: int| 0 <= j < i + 1 implies #[trigger] covered(w, firsts, j) by {
                        if j < i {
                            assert(covered(w, old_firsts, j));
                            let k = choose|k: int|
                                0 <= k < old_firsts.len() && #[trigger] class(w, old_firsts[k]) == class(w, j);
                            assert(firsts[k] == old_firsts[k]);
                        } else {
                            assert(firsts[old_firsts.len() as int] == i);
                        }
                    }
                }
            },
        }
        i += 1;
    }
    let ghost all = entries@;
    proof {
        assert(entries@ =~= all.subrange(0, entries@.len() as int));
    }
    let mut groups: Vec<(String, Vec<String>)> = Vec::new();
    let ghost mut src: Seq<int> = Seq::empty();
    while entries.len() > 0
        invariant
            w == texts(lowers@),
            ws == words@,
            w.len() == ws.len(),
            forms_agree(ws, w),
            firsts.len() == all.len(),
            forall|e: int| 0 <= e < firsts.len() ==> entry_ok(ws, w, w.len() as int, firsts[e], #[trigger] all[e]),
            forall|e1: int, e2: int|
                0 <= e1 < e2 < firsts.len() ==> class(w, #[trigger] firsts[e1]) != class(w, #[trigger] firsts[e2]),
            forall|j: int| 0 <= j < w.len() ==> #[trigger] covered(w, firsts, j),
            entries@.len() <= all.len(),
            entries@ == all.subrange(0, entries@.len() as int),
            src.len() == groups@.len(),
            forall|g: int|
                0 <= g < src.len() ==> entries@.len() <= #[trigger] src[g] < all.len() && all[src[g]].members@.len() > 1
                    && groups@[g].0@ == all[src[g]].first@ && texts(groups@[g].1@) == texts(
                    all[src[g]].members@,
                ),
            forall|g: int, h: int| 0 <= g < h < src.len() ==> #[trigger] src[g] != #[trigger] src[h],
            forall|e: int|
                entries@.len() <= e < all.len() && all[e].members@.len() > 1 ==> exists|g: int|
                    0 <= g < src.len() && #[trigger] src[g] == e,
        decreases entries@.len(),
    {
        let ghost k = (entries@.len() - 1) as int;
        let ghost before = entries@;
        let en = entries.pop().unwrap();
        proof {
            assert(before[k] == all[k]);
            assert(en == all[k]);
        }
        let ghost old_src = src;
        if en.members.len() > 1 {
            groups.push((en.first, en.members));
            proof {
                src = src.push(k);
            }
        }
        proof {
            assert forall|e: int|
                entries@.len() <= e < all.len() && all[e].members@.len() > 1 implies exists|g: int|
                    0 <= g < src.len() && #[trigger] src[g] == e by {
                if e == k {
                    assert(src[old_src.len() as int] == e);
                } else {
                    let g = choose|g: int| 0 <= g < old_src.len() && #[trigger] old_src[g] == e;
                    assert(src[g] == e);
                }
            }
        }
        proof {
            assert(entries@ =~= all.subrange(0, entries@.len() as int));
        }
    }
    let r = Anagrams { groups };
    proof {
        assert forall|g: int| 0 <= g < r@.len() implies r@[g] == (
            groups@[g].0@,
            texts(groups@[g].1@),
        ) by {}
        assert forall|g: int| 0 <= g < r@.len() implies #[trigger] listed_group(ws, w, r@, g) by {
            let e = src[g];
            let f = firsts[e];
            assert(entry_ok(ws, w, w.len() as int, f, all[e]));
            assert forall|y: Seq<char>| #[trigger] r@[g].1.contains(y) <==> is_form(w, f, y) by {
                if is_form(w, f, y) {
                    let j = choose|j: int|
                        0 <= j < w.len() && class(w, j) == class(w, f) && #[trigger] lower_word(w, j) == y;
                    assert(form_before(w, w.len() as int, f, y));
                }
                if form_before(w, w.len() as int, f, y) {
                    let j = choose|j: int|
                        0 <= j < w.len() && class(w, j) == class(w, f) && #[trigger] lower_word(w, j) == y;
                    assert(is_form(w, f, y));
                }
            }
            assert(group_of(w, f, r@[g].1));
        }
        assert forall|f: int| first_of_class(w, f) && two_forms(w, f) implies exists|g: int|
            0 <= g < r@.len() && #[trigger] r@[g].0 == ws[f]@ by {
            assert(covered(w, firsts, f));
            let e = choose|e: int| 0 <= e < firsts.len() && #[trigger] class(w, firsts[e]) == class(w, f);
            let fe = firsts[e];
            assert(entry_ok(ws, w, w.len() as int, fe, all[e]));
            if fe < f {
                assert(class(w, fe) != class(w, f));
            } else if f < fe {
                assert(class(w, f) != class(w, fe));
            }
            assert(fe == f);
            let (i1, i2) = choose|i1: int, i2: int|
                0 <= i1 < w.len() && 0 <= i2 < w.len() && class(w, i1) == class(w, f) && class(w, i2)
                    == class(w, f) && #[trigger] lower_word(w, i1) != #[trigger] lower_word(w, i2);
            let m = texts(all[e].members@);
            assert(form_before(w, w.len() as int, f, lower_word(w, i1)));
            assert(form_before(w, w.len() as int, f, lower_word(w, i2)));
            assert(m.contains(lower_word(w, i1)));
            assert(m.contains(lower_word(w, i2)));
            assert(m.len() > 1);
            let g = choose|g: int| 0 <= g < src.len() && #[trigger] src[g] == e;
            assert(r@[g].0 == ws[f]@);
        }
        assert forall|g: int, h: int| 0 <= g < h < r@.len() implies #[trigger] r@[g].0 != #[trigger] r@[h].0 by {
            let eg = src[g];
            let eh = src[h];
            assert(entry_ok(ws, w, w.len() as int, firsts[eg], all[eg]));
            assert(entry_ok(ws, w, w.len() as int, firsts[eh], all[eh]));
            if eg < eh {
                assert(class(w, firsts[eg]) != class(w, firsts[eh]));
            } else {
                assert(class(w, firsts[eh]) != class(w, firsts[eg]));
            }
            if r@[g].0 == r@[h].0 {
                assert(ws[firsts[eg]]@ == ws[firsts[eh]]@);
                assert(lower_word(w, firsts[eg]) == lower_word(w, firsts[eh]));
            }
        }
        assert(anagram_groups(ws, w, r@));
    }
    r
}

/// Groups words that are anagrams of each other, ignoring case. Each group
/// is listed under the first of its words as written, with the lowercase
/// forms of its words, each once, in ascending order; classes with only one
/// lowercase form are left out.
pub fn get_anagrams(words: &[&str]) -> (r: Anagrams)
    ensures
        anagram_groups(words@, lowercase_forms(words@), r@),
{
    let mut lowers: Vec<String> = Vec::new();
    let mut i: usize = 0;
    while i < words.len()
        invariant
            i <= words@.len(),
            texts(lowers@) == lowercase_forms(words@).take(i as int),
        decreases words@.len() - i,
    {
        let l = lowercase(words[i]);
        let ghost l0 = lowers@;
        lowers.push(l);
        proof {
            assert(texts(lowers@) =~= texts(l0).push(l@));
            assert(lowercase_forms(words@).take(i + 1) =~= lowercase_forms(words@).take(i as int).push(
                lower_of(words@[i as int]@),
            ));
        }
        i += 1;
    }
    proof {
        assert(lowercase_forms(words@).take(i as int) =~= lowercase_forms(words@));
    }
    group_anagrams(words, &lowers)
}

} // verus!
