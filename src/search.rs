//! Case-insensitive search over the text list, stepping through the matches
//! on repeated searches for the same query.
use vstd::prelude::*;
use vstd::utf8::{encode_utf8, encode_utf8_decode_utf8};

verus! {

/// What lowercasing makes of a text.
pub uninterp spec fn lower_of(s: Seq<char>) -> Seq<char>;

/// Relies on `str::to_lowercase`: the result depends on the characters alone.
#[verifier::external_body]
fn lowercase(s: &str) -> (r: String)
    ensures
        r@ == lower_of(s@),
{
    s.to_lowercase()
}

/// `needle` occurs in `hay`, byte for byte.
pub open spec fn contains_bytes(hay: Seq<u8>, needle: Seq<u8>) -> bool {
    exists|i: int| 0 <= i <= hay.len() - needle.len() && #[trigger] hay.subrange(i, i + needle.len()) == needle
}

fn occurs_at(hay: &[u8], needle: &[u8], i: usize) -> (r: bool)
    requires
        i + needle@.len() <= hay@.len(),
    ensures
        r == (hay@.subrange(i as int, i + needle@.len()) == needle@),
{
    let hl = hay.len();
    let mut k: usize = 0;
    while k < needle.len()
        invariant
            hl == hay@.len(),
            i + needle@.len() <= hay@.len(),
            k <= needle@.len(),
            forall|j: int| 0 <= j < k ==> hay@[i + j] == needle@[j],
        decreases needle@.len() - k,
    {
        if hay[i + k] != needle[k] {
            assert(hay@.subrange(i as int, i + needle@.len())[k as int] != needle@[k as int]);
            return false;
        }
        k += 1;
    }
    assert(hay@.subrange(i as int, i + needle@.len()) =~= needle@);
    true
}

/// `needle` occurs in `hay`, comparing their UTF-8 bytes.
pub fn contains_text(hay: &str, needle: &str) -> (r: bool)
    ensures
        r == contains_bytes(encode_utf8(hay@), encode_utf8(needle@)),
{
    let h = hay.as_bytes();
    let n = needle.as_bytes();
    assert(h@ == encode_utf8(hay@));
    assert(n@ == encode_utf8(needle@));
    if n.len() > h.len() {
        return false;
    }
    let lim = h.len() - n.len();
    let mut i: usize = 0;
    loop
        invariant
            h@ == encode_utf8(hay@),
            n@ == encode_utf8(needle@),
            n@.len() <= h@.len(),
            lim == h@.len() - n@.len(),
            i <= lim,
            forall|j: int| 0 <= j < i ==> #[trigger] h@.subrange(j, j + n@.len()) != n@,
        decreases lim - i,
    {
        if occurs_at(h, n, i) {
            assert(h@.subrange(i as int, i + n@.len()) == n@);
            assert(contains_bytes(h@, n@));
            return true;
        }
        if i == lim {
            assert(!contains_bytes(h@, n@)) by {
                assert forall|j: int| 0 <= j <= h@.len() - n@.len() implies #[trigger] h@.subrange(j, j + n@.len()) != n@ by {
                    if j == i {
                    }
                }
            }
            return false;
        }
        i += 1;
    }
}

/// `item` matches `query` once both are lowercased.
pub open spec fn item_matches(item: Seq<char>, query: Seq<char>) -> bool {
    contains_bytes(encode_utf8(lower_of(item)), encode_utf8(lower_of(query)))
}

/// Which of `items` match `query`, ignoring case.
pub fn matching_items(items: &Vec<String>, query: &str) -> (r: Vec<bool>)
    ensures
        r@.len() == items@.len(),
        forall|k: int| 0 <= k < r@.len() ==> #[trigger] r@[k] == item_matches(items@[k]@, query@),
{
    let q = lowercase(query);
    let mut out: Vec<bool> = Vec::new();
    let mut k: usize = 0;
    while k < items.len()
        invariant
            q@ == lower_of(query@),
            k <= items@.len(),
            out@.len() == k,
            forall|j: int| 0 <= j < k ==> #[trigger] out@[j] == item_matches(items@[j]@, query@),
        decreases items@.len() - k,
    {
        let l = lowercase(items[k].as_str());
        out.push(contains_text(l.as_str(), q.as_str()));
        k += 1;
    }
    out
}

/// Two texts are equal.
pub fn same_text(a: &str, b: &str) -> (r: bool)
    ensures
        r == (a@ == b@),
{
    let x = a.as_bytes();
    let y = b.as_bytes();
    proof {
        encode_utf8_decode_utf8(a@);
        encode_utf8_decode_utf8(b@);
    }
    if x.len() != y.len() {
        return false;
    }
    let r = occurs_at(x, y, 0);
    assert(x@.subrange(0, y@.len() as int) =~= x@);
    r
}

/// The number of matches among the first `n` flags.
pub open spec fn count_matches(m: Seq<bool>, n: int) -> int
    decreases n,
{
    if n <= 0 {
        0
    } else {
        count_matches(m, n - 1) + if m[n - 1] { 1int } else { 0int }
    }
}

/// The list the search selects in: its texts and the selected position.
pub struct ListBoxData {
    pub item: i32,
    pub items: Vec<String>,
}

/// The state of the text search. Searching the same query again steps on
/// to the next match, wrapping to the first after the last.
pub struct StringSearch {
    pub search: String,
    pub last: String,
    pub times: u16,
    pub size: u16,
}

/// The step a repeated search has reached before the matches are counted.
pub open spec fn next_step(s: StringSearch) -> u16 {
    if s.search@ == s.last@ {
        let t = s.times.wrapping_add(1);
        if s.size != 0 && t >= s.size {
            0
        } else {
            t
        }
    } else {
        0
    }
}

/// `b` is search state `a` after a search over the match flags `m` that
/// selected `r`.
pub open spec fn advanced(a: StringSearch, b: StringSearch, m: Seq<bool>, r: Option<usize>) -> bool {
    let t = next_step(a);
    let n = count_matches(m, m.len() as int);
    let chosen = if t < n { t as int } else { 0 };
    &&& b.search == a.search
    &&& b.last@ == a.search@
    &&& b.size == n
    &&& b.times == if n > 0 && t >= n { 0 } else { t }
    &&& r is None <==> n == 0
    &&& r matches Some(j) ==> j < m.len() && m[j as int] && count_matches(m, j as int) == chosen
}

/// Which of `items` match `query`.
pub open spec fn match_flags(items: Seq<String>, query: Seq<char>) -> Seq<bool> {
    Seq::new(items.len(), |k: int| item_matches(items[k]@, query))
}

impl StringSearch {
    pub fn new() -> (r: StringSearch)
        ensures
            r.search@.len() == 0,
            r.last@.len() == 0,
            r.times == 0,
            r.size == 0,
    {
        StringSearch { search: String::new(), last: String::new(), times: 0, size: 0 }
    }

    /// Runs the search over the match flags `matched` of the list: selects the
    /// match at the step reached (counting from zero), or the first match
    /// where the step runs past the last one; `None` where nothing matches.
    /// Remembers the query, the step and the number of matches.
    pub fn advance(&mut self, matched: &Vec<bool>) -> (r: Option<usize>)
        requires
            matched@.len() <= 0xFFFF,
        ensures
            advanced(*old(self), *final(self), matched@, r),
    {
        let ghost t = next_step(*self);
        let ghost n = count_matches(matched@, matched@.len() as int);
        if same_text(self.search.as_str(), self.last.as_str()) {
            self.times = self.times.wrapping_add(1);
            if self.size != 0 && self.times >= self.size {
                self.times = 0;
            }
        } else {
            self.times = 0;
            self.size = 0;
        }
        self.last = self.search.clone();
        let mut to_skip: u16 = self.times;
        let mut first: Option<usize> = None;
        let mut found: Option<usize> = None;
        let mut size: u16 = 0;
        let mut i: usize = 0;
        while i < matched.len()
            invariant
                matched@.len() <= 0xFFFF,
                self.times == t,
                i <= matched@.len(),
                size as int == count_matches(matched@, i as int),
                size <= i,
                found is None ==> to_skip as int == t - size,
                found is Some ==> t < size,
                found matches Some(j) ==> j < i && matched@[j as int] && count_matches(matched@, j as int) == t,
                first is None ==> (size == 0 || t == 0),
                first matches Some(j) ==> j < i && matched@[j as int] && count_matches(matched@, j as int) == 0,
                size > 0 && t > 0 ==> first is Some,
                found is Some ==> first is Some,
                first is Some ==> size > 0,
            decreases matched@.len() - i,
        {
            if matched[i] {
                if found.is_none() {
                    if to_skip > 0 {
                        to_skip -= 1;
                        if first.is_none() {
                            first = Some(i);
                        }
                    } else {
                        found = Some(i);
                        if first.is_none() {
                            first = Some(i);
                        }
                    }
                }
                size += 1;
            }
            i += 1;
        }
        self.size = size;
        match found {
            Some(j) => Some(j),
            None => match first {
                Some(j) => {
                    self.times = 0;
                    Some(j)
                },
                None => None,
            },
        }
    }

    /// Searches `list` for the query, case-insensitively, and selects the
    /// match that `advance` picks; the selection stays where nothing matches.
    pub fn run(&mut self, list: &mut ListBoxData) -> (r: Option<usize>)
        requires
            old(list).items@.len() <= 0xFFFF,
        ensures
            advanced(*old(self), *final(self), match_flags(old(list).items@, old(self).search@), r),
            final(list).items == old(list).items,
            final(list).item == match r {
                Some(j) => j as i32,
                None => old(list).item,
            },
    {
        let matched = matching_items(&list.items, self.search.as_str());
        assert(matched@ =~= match_flags(list.items@, self.search@));
        let r = self.advance(&matched);
        if let Some(j) = r {
            list.item = j as i32;
        }
        r
    }
}

} // verus!
