//! The rules by which directory walks pick files: extension filters, depth
//! limits, and the per-extension and total-size summaries of a tree.
use vstd::prelude::*;
use crate::connectivity::{count_where, lemma_count_where_ext, lemma_count_where_le};
use crate::labelme::texts;

verus! {

/// `c` with ASCII upper-case letters mapped to lower case.
pub open spec fn ascii_lower(c: char) -> char {
    if 'A' <= c && c <= 'Z' {
        ((c as u32) + 32) as char
    } else {
        c
    }
}

/// The two texts are equal up to ASCII letter case.
pub open spec fn eq_ignore_ascii_case(a: Seq<char>, b: Seq<char>) -> bool {
    a.len() == b.len() && forall|i: int| 0 <= i < a.len() ==> ascii_lower(#[trigger] a[i]) == ascii_lower(b[i])
}

fn lower_char(c: char) -> (r: char)
    ensures
        r == ascii_lower(c),
{
    if 'A' <= c && c <= 'Z' {
        let code = (c as u32 + 32) as u8;
        code as char
    } else {
        c
    }
}

/// Compares two texts up to ASCII letter case, as `str::eq_ignore_ascii_case` does.
pub fn str_eq_ignore_ascii_case(a: &str, b: &str) -> (r: bool)
    ensures
        r == eq_ignore_ascii_case(a@, b@),
{
    let la = a.unicode_len();
    let lb = b.unicode_len();
    if la != lb {
        return false;
    }
    let mut i: usize = 0;
    while i < la
        invariant
            i <= la,
            la == a@.len(),
            lb == b@.len(),
            la == lb,
            forall|k: int| 0 <= k < i ==> ascii_lower(#[trigger] a@[k]) == ascii_lower(b@[k]),
        decreases la - i,
    {
        if lower_char(a.get_char(i)) != lower_char(b.get_char(i)) {
            return false;
        }
        i += 1;
    }
    true
}

/// A file with extension `ext` passes the filter `extensions`: the filter
/// is empty, or the file has an extension equal to one of them up to ASCII case.
pub open spec fn extension_selected(ext: Option<Seq<char>>, extensions: Seq<Seq<char>>) -> bool {
    extensions.len() == 0 || (ext matches Some(e) && exists|i: int|
        0 <= i < extensions.len() && eq_ignore_ascii_case(#[trigger] extensions[i], e))
}

/// Decides whether a file with extension `ext` (`None` when it has none) passes `extensions`.
pub fn extension_matches(ext: Option<&str>, extensions: &Vec<String>) -> (r: bool)
    ensures
        r == extension_selected(
            match ext {
                Some(e) => Some(e@),
                None => None,
            },
            texts(extensions@),
        ),
{
    let ghost exts = texts(extensions@);
    if extensions.len() == 0 {
        return true;
    }
    match ext {
        None => false,
        Some(e) => {
            let mut i: usize = 0;
            while i < extensions.len()
                invariant
                    i <= extensions@.len(),
                    exts == texts(extensions@),
                    ext == Some(e),
                    forall|k: int| 0 <= k < i ==> !eq_ignore_ascii_case(#[trigger] exts[k], e@),
                decreases extensions@.len() - i,
            {
                if str_eq_ignore_ascii_case(extensions[i].as_str(), e) {
                    proof {
                        assert(eq_ignore_ascii_case(exts[i as int], e@));
                        assert(extension_selected(Some(e@), exts));
                    }
                    return true;
                }
                i += 1;
            }
            false
        },
    }
}

/// `c` with an ASCII capital letter replaced by its small letter, as
/// `char::to_ascii_lowercase` does.
pub open spec fn to_ascii_lowercase(c: char) -> char {
    if 65 <= (c as u32) && (c as u32) <= 90 {
        ((c as u32) + 32) as char
    } else {
        c
    }
}

/// An empty filter takes every file; a non-empty one takes exactly the files
/// with an extension of the same length as one of its entries and equal to
/// it letter by letter up to ASCII case.
pub proof fn lemma_extension_filter(ext: Option<Seq<char>>, extensions: Seq<Seq<char>>)
    ensures
        extensions.len() == 0 ==> extension_selected(ext, extensions),
        extensions.len() > 0 ==> (extension_selected(ext, extensions) <==> (ext matches Some(e) && exists|i: int|
            0 <= i < extensions.len() && #[trigger] extensions[i].len() == e.len() && forall|j: int|
                0 <= j < e.len() ==> to_ascii_lowercase(#[trigger] extensions[i][j]) == to_ascii_lowercase(e[j]))),
{
    if extensions.len() > 0 {
        if let Some(e) = ext {
            assert forall|i: int| 0 <= i < extensions.len() implies (eq_ignore_ascii_case(
                #[trigger] extensions[i],
                e,
            ) <==> (extensions[i].len() == e.len() && forall|j: int|
                0 <= j < e.len() ==> to_ascii_lowercase(#[trigger] extensions[i][j]) == to_ascii_lowercase(e[j]))) by {
                assert forall|j: int| 0 <= j < e.len() implies ascii_lower(extensions[i][j]) == to_ascii_lowercase(
                    extensions[i][j],
                ) && ascii_lower(e[j]) == to_ascii_lowercase(e[j]) by {}
                if extensions[i].len() == e.len() {
                    if eq_ignore_ascii_case(extensions[i], e) {
                        assert forall|j: int| 0 <= j < e.len() implies to_ascii_lowercase(#[trigger] extensions[i][j])
                            == to_ascii_lowercase(e[j]) by {
                            assert(ascii_lower(extensions[i][j]) == ascii_lower(e[j]));
                        }
                    }
                }
            }
        }
    }
}

/// Extensions the image finders of the shared walker accept.
pub fn shared_image_extensions() -> (r: Vec<String>)
    ensures
        texts(r@) == seq!["jpg"@, "jpeg"@, "png"@, "bmp"@, "webp"@, "tiff"@],
{
    let r = vec![
        "jpg".to_owned(),
        "jpeg".to_owned(),
        "png".to_owned(),
        "bmp".to_owned(),
        "webp".to_owned(),
        "tiff".to_owned(),
    ];
    proof {
        assert(texts(r@) =~= seq!["jpg"@, "jpeg"@, "png"@, "bmp"@, "webp"@, "tiff"@]);
    }
    r
}

/// Extensions the image finders of the training walker accept.
pub fn training_image_extensions() -> (r: Vec<String>)
    ensures
        texts(r@) == seq![
            "jpg"@,
            "jpeg"@,
            "png"@,
            "bmp"@,
            "webp"@,
            "tiff"@,
            "tif"@,
        ],
{
    let r = vec![
        "jpg".to_owned(),
        "jpeg".to_owned(),
        "png".to_owned(),
        "bmp".to_owned(),
        "webp".to_owned(),
        "tiff".to_owned(),
        "tif".to_owned(),
    ];
    proof {
        assert(texts(r@) =~= seq![
            "jpg"@,
            "jpeg"@,
            "png"@,
            "bmp"@,
            "webp"@,
            "tiff"@,
            "tif"@,
        ]);
    }
    r
}

/// The extension JSON finders accept.
pub fn json_extensions() -> (r: Vec<String>)
    ensures
        texts(r@) == seq!["json"@],
{
    let r = vec!["json".to_owned()];
    proof {
        assert(texts(r@) =~= seq!["json"@]);
    }
    r
}

/// The shared walker lists a directory at depth `depth` (the root being at
/// depth 0) unless that exceeds `max_depth`.
pub fn dir_within_depth(depth: usize, max_depth: Option<usize>) -> (r: bool)
    ensures
        r == (max_depth matches Some(m) ==> depth <= m),
{
    match max_depth {
        Some(m) => depth <= m,
        None => true,
    }
}

/// The text Unicode lower-casing (`str::to_lowercase`) makes of `s`.
pub uninterp spec fn unicode_lowercase(s: Seq<char>) -> Seq<char>;

/// `str::to_lowercase`: the result is `unicode_lowercase` of the text.
#[verifier::external_body]
fn lowercase(s: &str) -> (r: String)
    ensures
        r@ == unicode_lowercase(s@),
{
    s.to_lowercase()
}

/// The key a file is counted under: its lower-cased extension, or
/// `"no_extension"` when it has none.
pub open spec fn extension_key(ext: Option<Seq<char>>) -> Seq<char> {
    match ext {
        Some(e) => unicode_lowercase(e),
        None => "no_extension"@,
    }
}

pub open spec fn option_text(ext: Option<String>) -> Option<Seq<char>> {
    match ext {
        Some(e) => Some(e@),
        None => None,
    }
}

/// Number of files among `exts` counted under `key`.
pub open spec fn key_count(exts: Seq<Option<String>>, key: Seq<char>) -> nat {
    count_where(exts.len(), |k: int| extension_key(option_text(exts[k])) == key)
}

/// Every one of the first `k` files has its key among `out`.
pub open spec fn keys_cover(out: Seq<(String, usize)>, exts: Seq<Option<String>>, k: int) -> bool {
    forall|q: int|
        0 <= q < k ==> exists|i: int|
            0 <= i < out.len() && #[trigger] out[i].0@ == extension_key(option_text(#[trigger] exts[q]))
}

/// Position of the first entry of `out` keyed by `key`, if any.
fn find_key(out: &Vec<(String, usize)>, key: &String) -> (r: Option<usize>)
    ensures
        match r {
            Some(i) => i < out@.len() && out@[i as int].0@ == key@,
            None => forall|t: int| 0 <= t < out@.len() ==> #[trigger] out@[t].0@ != key@,
        },
{
    let mut i: usize = 0;
    while i < out.len()
        invariant
            i <= out@.len(),
            forall|t: int| 0 <= t < i ==> #[trigger] out@[t].0@ != key@,
        decreases out@.len() - i,
    {
        if out[i].0 == *key {
            return Some(i);
        }
        i += 1;
    }
    None
}

/// Counts files by extension key: every file's key is listed, once, paired
/// with its number of files, and no key without a file is listed.
pub fn count_by_extension_keys(exts: &Vec<Option<String>>) -> (r: Vec<(String, usize)>)
    ensures
        forall|i: int, j: int| 0 <= i < j < r@.len() ==> #[trigger] r@[i].0@ != #[trigger] r@[j].0@,
        forall|i: int| 0 <= i < r@.len() ==> #[trigger] r@[i].1 == key_count(exts@, r@[i].0@),
        forall|i: int| 0 <= i < r@.len() ==> #[trigger] r@[i].1 >= 1,
        keys_cover(r@, exts@, exts@.len() as int),
{
    proof {
        reveal_strlit("no_extension");
    }
    let n = exts.len();
    let mut out: Vec<(String, usize)> = Vec::new();
    let mut k: usize = 0;
    while k < n
        invariant
            n == exts@.len(),
            k <= n,
            forall|i: int, j: int| 0 <= i < j < out@.len() ==> #[trigger] out@[i].0@ != #[trigger] out@[j].0@,
            forall|i: int|
                0 <= i < out@.len() ==> #[trigger] out@[i].1 == count_where(
                    k as nat,
                    |q: int| extension_key(option_text(exts@[q])) == out@[i].0@,
                ),
            keys_cover(out@, exts@, k as int),
            forall|i: int| 0 <= i < out@.len() ==> #[trigger] out@[i].1 >= 1,
        decreases n - k,
    {
        let key = match &exts[k] {
            Some(e) => lowercase(e.as_str()),
            None => "no_extension".to_owned(),
        };
        let ghost kv = key@;
        proof {
            assert(kv == extension_key(option_text(exts@[k as int])));
        }
        let ghost before = out@;
        match find_key(&out, &key) {
            Some(i) => {
                proof {
                    let f = |q: int| extension_key(option_text(exts@[q])) == before[i as int].0@;
                    lemma_count_where_le(k as nat, f);
                }
                let name = out[i].0.clone();
                let c = out[i].1;
                out.set(i, (name, c + 1));
                proof {
                    assert forall|t: int| 0 <= t < out@.len() implies #[trigger] out@[t].0@ == before[t].0@ by {}
                    assert forall|q: int| 0 <= q < k + 1 implies exists|t: int|
                        0 <= t < out@.len() && #[trigger] out@[t].0@ == extension_key(option_text(#[trigger] exts@[q])) by {
                        if q < k {
                            let t = choose|t: int|
                                0 <= t < before.len() && #[trigger] before[t].0@ == extension_key(option_text(exts@[q]));
                            assert(out@[t].0@ == before[t].0@);
                        } else {
                            assert(out@[i as int].0@ == kv);
                        }
                    }
                    assert(keys_cover(out@, exts@, k + 1));
                    assert forall|t: int|
                        0 <= t < out@.len() implies #[trigger] out@[t].1 == count_where(
                        (k + 1) as nat,
                        |q: int| extension_key(option_text(exts@[q])) == out@[t].0@,
                    ) by {
                        if t != i {
                            assert(out@[t] == before[t]);
                        }
                    }
                }
            },
            None => {
                out.push((key, 1));
                proof {
                    assert forall|t: int| 0 <= t < before.len() implies #[trigger] out@[t] == before[t] by {}
                    assert forall|q: int| 0 <= q < k + 1 implies exists|t: int|
                        0 <= t < out@.len() && #[trigger] out@[t].0@ == extension_key(option_text(#[trigger] exts@[q])) by {
                        if q < k {
                            let t = choose|t: int|
                                0 <= t < before.len() && #[trigger] before[t].0@ == extension_key(option_text(exts@[q]));
                            assert(out@[t] == before[t]);
                        } else {
                            assert(out@[before.len() as int].0@ == kv);
                        }
                    }
                    assert(keys_cover(out@, exts@, k + 1));
                    let f = |q: int| extension_key(option_text(exts@[q])) == kv;
                    assert forall|q: int| 0 <= q < k implies !#[trigger] f(q) by {
                        if f(q) {
                            let t = choose|t: int|
                                0 <= t < before.len() && #[trigger] before[t].0@ == extension_key(option_text(exts@[q]));
                            assert(before[t].0@ == kv);
                        }
                    }
                    lemma_count_zero(k as nat, f);
                    assert forall|t: int|
                        0 <= t < out@.len() implies #[trigger] out@[t].1 == count_where(
                        (k + 1) as nat,
                        |q: int| extension_key(option_text(exts@[q])) == out@[t].0@,
                    ) by {
                        if t < before.len() {
                            assert(out@[t] == before[t]);
                        }
                    }
                    assert forall|a: int, b: int| 0 <= a < b < out@.len() implies #[trigger] out@[a].0@ != #[trigger] out@[b].0@ by {
                        if b < before.len() {
                            assert(out@[a] == before[a] && out@[b] == before[b]);
                        } else {
                            assert(out@[a] == before[a]);
                        }
                    }
                }
            },
        }
        k += 1;
    }
    out
}

proof fn lemma_count_zero(k: nat, f: spec_fn(int) -> bool)
    requires
        forall|q: int| 0 <= q < k ==> !#[trigger] f(q),
    ensures
        count_where(k, f) == 0,
    decreases k,
{
    if k > 0 {
        lemma_count_zero((k - 1) as nat, f);
    }
}

/// Sum of the counts listed in `out`.
pub open spec fn listed_total(out: Seq<(String, usize)>) -> nat
    decreases out.len(),
{
    if out.len() == 0 {
        0
    } else {
        listed_total(out.drop_last()) + out.last().1 as nat
    }
}

/// Files among the first `k` counted under `key`.
spec fn key_count_upto(exts: Seq<Option<String>>, key: Seq<char>, k: nat) -> nat {
    count_where(k, |q: int| extension_key(option_text(exts[q])) == key)
}

/// Sum, over the keys listed in `out`, of their files among the first `k`.
spec fn listed_upto(out: Seq<(String, usize)>, exts: Seq<Option<String>>, k: nat) -> nat
    decreases out.len(),
{
    if out.len() == 0 {
        0
    } else {
        listed_upto(out.drop_last(), exts, k) + key_count_upto(exts, out.last().0@, k)
    }
}

/// Number of entries of `out` keyed by `key`.
spec fn occurrences(out: Seq<(String, usize)>, key: Seq<char>) -> nat
    decreases out.len(),
{
    if out.len() == 0 {
        0
    } else {
        occurrences(out.drop_last(), key) + if out.last().0@ == key { 1nat } else { 0nat }
    }
}

spec fn keys_distinct(out: Seq<(String, usize)>) -> bool {
    forall|i: int, j: int| 0 <= i < j < out.len() ==> #[trigger] out[i].0@ != #[trigger] out[j].0@
}

proof fn lemma_listed_zero(out: Seq<(String, usize)>, exts: Seq<Option<String>>)
    ensures
        listed_upto(out, exts, 0) == 0,
    decreases out.len(),
{
    if out.len() > 0 {
        lemma_listed_zero(out.drop_last(), exts);
    }
}

proof fn lemma_listed_step(out: Seq<(String, usize)>, exts: Seq<Option<String>>, k: nat)
    ensures
        listed_upto(out, exts, k + 1) == listed_upto(out, exts, k) + occurrences(
            out,
            extension_key(option_text(exts[k as int])),
        ),
    decreases out.len(),
{
    if out.len() > 0 {
        lemma_listed_step(out.drop_last(), exts, k);
    }
}

proof fn lemma_occurrences_absent(out: Seq<(String, usize)>, key: Seq<char>)
    requires
        forall|i: int| 0 <= i < out.len() ==> #[trigger] out[i].0@ != key,
    ensures
        occurrences(out, key) == 0,
    decreases out.len(),
{
    if out.len() > 0 {
        let rest = out.drop_last();
        assert forall|i: int| 0 <= i < rest.len() implies #[trigger] rest[i].0@ != key by {
            assert(rest[i] == out[i]);
        }
        lemma_occurrences_absent(rest, key);
    }
}

proof fn lemma_occurrences_once(out: Seq<(String, usize)>, key: Seq<char>, i: int)
    requires
        keys_distinct(out),
        0 <= i < out.len(),
        out[i].0@ == key,
    ensures
        occurrences(out, key) == 1,
    decreases out.len(),
{
    let rest = out.drop_last();
    if i == out.len() - 1 {
        assert forall|t: int| 0 <= t < rest.len() implies #[trigger] rest[t].0@ != key by {
            assert(rest[t] == out[t]);
            assert(out[t].0@ != out[i].0@);
        }
        lemma_occurrences_absent(rest, key);
    } else {
        assert forall|a: int, b: int| 0 <= a < b < rest.len() implies #[trigger] rest[a].0@ != #[trigger] rest[b].0@ by {
            assert(rest[a] == out[a] && rest[b] == out[b]);
        }
        assert(rest[i] == out[i]);
        assert(out.last().0@ != out[i].0@);
        lemma_occurrences_once(rest, key, i);
    }
}

proof fn lemma_listed_upto_counts(out: Seq<(String, usize)>, exts: Seq<Option<String>>, k: nat)
    requires
        k <= exts.len(),
        keys_distinct(out),
        keys_cover(out, exts, exts.len() as int),
    ensures
        listed_upto(out, exts, k) == k,
    decreases k,
{
    if k == 0 {
        lemma_listed_zero(out, exts);
    } else {
        let j = (k - 1) as nat;
        lemma_listed_upto_counts(out, exts, j);
        lemma_listed_step(out, exts, j);
        let key = extension_key(option_text(exts[j as int]));
        let i = choose|i: int| 0 <= i < out.len() && #[trigger] out[i].0@ == extension_key(option_text(exts[j as int]));
        lemma_occurrences_once(out, key, i);
    }
}

proof fn lemma_listed_total_is_upto(out: Seq<(String, usize)>, exts: Seq<Option<String>>)
    requires
        forall|i: int| 0 <= i < out.len() ==> #[trigger] out[i].1 == key_count(exts, out[i].0@),
    ensures
        listed_total(out) == listed_upto(out, exts, exts.len()),
    decreases out.len(),
{
    if out.len() > 0 {
        let rest = out.drop_last();
        assert forall|i: int| 0 <= i < rest.len() implies #[trigger] rest[i].1 == key_count(exts, rest[i].0@) by {
            assert(rest[i] == out[i]);
        }
        lemma_listed_total_is_upto(rest, exts);
        let key = out.last().0@;
        assert(out[out.len() - 1].1 == key_count(exts, key));
        lemma_count_where_ext(
            exts.len(),
            |q: int| extension_key(option_text(exts[q])) == key,
            |k: int| extension_key(option_text(exts[k])) == key,
        );
    }
}

/// Counting by extension counts every file exactly once: for a listing
/// with the properties `count_by_extension_keys` ensures, the counts add up
/// to the number of files.
pub proof fn lemma_extension_counts_add_up(exts: Seq<Option<String>>, out: Seq<(String, usize)>)
    requires
        forall|i: int, j: int| 0 <= i < j < out.len() ==> #[trigger] out[i].0@ != #[trigger] out[j].0@,
        forall|i: int| 0 <= i < out.len() ==> #[trigger] out[i].1 == key_count(exts, out[i].0@),
        keys_cover(out, exts, exts.len() as int),
    ensures
        listed_total(out) == exts.len(),
{
    lemma_listed_upto_counts(out, exts, exts.len());
    lemma_listed_total_is_upto(out, exts);
}

/// Sum of `sizes`.
pub open spec fn sum_sizes(sizes: Seq<u64>) -> nat
    decreases sizes.len(),
{
    if sizes.len() == 0 {
        0
    } else {
        sum_sizes(sizes.drop_last()) + sizes.last() as nat
    }
}

proof fn lemma_sum_prefix(sizes: Seq<u64>, k: int)
    requires
        0 <= k <= sizes.len(),
    ensures
        sum_sizes(sizes.take(k)) <= sum_sizes(sizes),
    decreases sizes.len(),
{
    if k < sizes.len() {
        assert(sizes.drop_last().take(k) =~= sizes.take(k));
        lemma_sum_prefix(sizes.drop_last(), k);
    } else {
        assert(sizes.take(k) =~= sizes);
    }
}

/// Total size of a tree's files from their sizes.
pub fn total_size(sizes: &Vec<u64>) -> (r: u64)
    requires
        sum_sizes(sizes@) <= u64::MAX,
    ensures
        r == sum_sizes(sizes@),
{
    let mut total: u64 = 0;
    let mut i: usize = 0;
    while i < sizes.len()
        invariant
            i <= sizes@.len(),
            total == sum_sizes(sizes@.take(i as int)),
            sum_sizes(sizes@) <= u64::MAX,
        decreases sizes@.len() - i,
    {
        proof {
            assert(sizes@.take(i + 1).drop_last() =~= sizes@.take(i as int));
            lemma_sum_prefix(sizes@, i + 1);
        }
        total = total + sizes[i];
        i += 1;
    }
    proof {
        assert(sizes@.take(sizes@.len() as int) =~= sizes@);
    }
    total
}

} // verus!
