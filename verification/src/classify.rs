use vstd::prelude::*;

use crate::config::{CategoryView, Config};

verus! {

/// The Unicode lowercase of a string. What `str::to_lowercase` returns
/// takes the Unicode tables to state, so the result only gets this name:
/// it is a function of the characters alone.
pub uninterp spec fn lower_of(s: Seq<char>) -> Seq<char>;

/// Relies on `str::to_lowercase`: the Unicode lowercase of the input,
/// depending on the characters alone — not on locale or environment.
#[verifier::external_body]
fn to_lowercase(s: &str) -> (r: String)
    ensures
        r@ == lower_of(s@),
{
    s.to_lowercase()
}

/// The category an extension falls in: the first category whose extension
/// set contains the lowercased input, or the fallback when none does.
pub open spec fn classify_spec(ext: Seq<char>, cats: Seq<CategoryView>) -> Seq<char>
    decreases cats.len(),
{
    if cats.len() == 0 {
        "Others"@
    } else if cats[0].extensions.contains(lower_of(ext)) {
        cats[0].name
    } else {
        classify_spec(ext, cats.drop_first())
    }
}

/// Whether some stored extension equals the given (already lowercased)
/// string.
fn contains_str(exts: &Vec<String>, needle: &String) -> (r: bool)
    ensures
        r == exts@.map_values(|e: String| e@).contains(needle@),
{
    let ghost stored = exts@.map_values(|e: String| e@);
    let mut i: usize = 0;
    while i < exts.len()
        invariant
            stored == exts@.map_values(|e: String| e@),
            i <= exts.len(),
            forall|j: int| 0 <= j < i ==> stored[j] != needle@,
        decreases exts.len() - i,
    {
        if exts[i] == *needle {
            proof {
                assert(stored[i as int] == needle@);
            }
            return true;
        }
        i += 1;
    }
    false
}

/// Classification: total over every extension string. The input is
/// lowercased, the categories are searched in order, and the first whose
/// extension set holds the lowercased input names the result; when none
/// does, the fallback category `Others` is returned.
pub fn category_for_extension(ext: &str, config: &Config) -> (r: String)
    ensures
        r@ == classify_spec(ext@, config@),
{
    let lowered = to_lowercase(ext);
    proof {
        assert(config@.skip(0) =~= config@);
    }
    let n = config.categories.len();
    let mut i: usize = 0;
    while i < n
        invariant
            lowered@ == lower_of(ext@),
            n == config.categories.len(),
            i <= n,
            classify_spec(ext@, config@) == classify_spec(ext@, config@.skip(i as int)),
        decreases n - i,
    {
        proof {
            assert(config@.skip(i as int)[0] == config@[i as int]);
            assert(config@.skip(i as int).drop_first() =~= config@.skip(i as int + 1));
        }
        if contains_str(&config.categories[i].extensions, &lowered) {
            proof {
                assert(config@[i as int] == config.categories@[i as int]@);
            }
            return config.categories[i].name.clone();
        }
        i += 1;
    }
    proof {
        assert(config@.skip(n as int).len() == 0);
    }
    String::from_str("Others")
}

/// Classification is case-insensitive: two extensions with the same
/// lowercasing fall in the same category, whatever the mapping.
pub proof fn lemma_classify_case_insensitive(e1: Seq<char>, e2: Seq<char>, cats: Seq<CategoryView>)
    requires
        lower_of(e1) == lower_of(e2),
    ensures
        classify_spec(e1, cats) == classify_spec(e2, cats),
    decreases cats.len(),
{
    if cats.len() > 0 {
        lemma_classify_case_insensitive(e1, e2, cats.drop_first());
    }
}

/// Classification is total and pinned down: when no category's extension
/// set holds the lowercased input the fallback is returned, and otherwise
/// the result is the name of the first category that matches.
pub proof fn lemma_classify_totality(ext: Seq<char>, cats: Seq<CategoryView>)
    ensures
        (forall|k: int| 0 <= k < cats.len() ==> !cats[k].extensions.contains(lower_of(ext)))
            ==> classify_spec(ext, cats) == "Others"@,
        (exists|k: int| 0 <= k < cats.len() && cats[k].extensions.contains(lower_of(ext)))
            ==> exists|k: int|
                0 <= k < cats.len() && cats[k].extensions.contains(lower_of(ext))
                && (forall|j: int| 0 <= j < k ==> !cats[j].extensions.contains(lower_of(ext)))
                && classify_spec(ext, cats) == cats[k].name,
    decreases cats.len(),
{
    if cats.len() > 0 {
        lemma_classify_totality(ext, cats.drop_first());
        if cats[0].extensions.contains(lower_of(ext)) {
            assert(cats[0].extensions.contains(lower_of(ext))
                && (forall|j: int| 0 <= j < 0 ==> !cats[j].extensions.contains(lower_of(ext)))
                && classify_spec(ext, cats) == cats[0].name);
        } else {
            if exists|k: int| 0 <= k < cats.len() && cats[k].extensions.contains(lower_of(ext)) {
                let kk = choose|k: int|
                    0 <= k < cats.len() && cats[k].extensions.contains(lower_of(ext));
                assert(kk > 0);
                assert(cats.drop_first()[kk - 1] == cats[kk]);
                assert(exists|k: int|
                    0 <= k < cats.drop_first().len()
                    && cats.drop_first()[k].extensions.contains(lower_of(ext)));
                let k0 = choose|k0: int|
                    0 <= k0 < cats.drop_first().len()
                    && cats.drop_first()[k0].extensions.contains(lower_of(ext))
                    && (forall|j: int|
                        0 <= j < k0 ==> !cats.drop_first()[j].extensions.contains(lower_of(ext)))
                    && classify_spec(ext, cats.drop_first()) == cats.drop_first()[k0].name;
                assert(cats.drop_first()[k0] == cats[k0 + 1]);
                assert(forall|j: int| 1 <= j < k0 + 1 ==> cats[j] == cats.drop_first()[j - 1]);
                assert(cats[k0 + 1].extensions.contains(lower_of(ext))
                    && (forall|j: int|
                        0 <= j < k0 + 1 ==> !cats[j].extensions.contains(lower_of(ext)))
                    && classify_spec(ext, cats) == cats[k0 + 1].name);
            }
        }
    }
}

} // verus!
