use vstd::prelude::*;

use crate::chars::trim_string;
use crate::strutil::str_eq;

verus! {

broadcast use vstd::string::group_string_axioms;

// ---------------------------------------------------------------------------
// The settings document.  Persisted settings are a tree of plain values; the
// caller converts between this model and whatever serialization it uses.
// Numbers are modeled as signed integers: the one numeric setting is a small
// day count.
// ---------------------------------------------------------------------------

#[derive(Debug, PartialEq)]
pub enum SettingsValue {
    Null,
    Bool(bool),
    Num(i64),
    Str(String),
    Arr(Vec<SettingsValue>),
    Obj(Vec<(String, SettingsValue)>),
}

#[derive(Debug, PartialEq)]
pub struct SettingsLoadResult {
    pub settings: SettingsValue,
    pub source: String,
}

#[derive(Debug, Clone, PartialEq)]
pub struct RestartResult {
    pub restarted: bool,
}

/// The first value stored under a key.
pub open spec fn spec_obj_get(entries: Seq<(String, SettingsValue)>, key: Seq<char>) -> Option<
    int,
>
    decreases entries.len(),
{
    if entries.len() == 0 {
        None
    } else if entries[0].0@ == key {
        Some(0int)
    } else {
        match spec_obj_get(entries.drop_first(), key) {
            Some(i) => Some(i + 1),
            None => None,
        }
    }
}

/// Look up the first entry stored under a key.
pub fn obj_get<'a>(entries: &'a Vec<(String, SettingsValue)>, key: &str) -> (r: Option<
    &'a SettingsValue,
>)
    ensures
        match r {
            Some(v) => spec_obj_get(entries@, key@) matches Some(i) && 0 <= i < entries@.len()
                && *v == entries@[i].1,
            None => spec_obj_get(entries@, key@) is None,
        },
{
    let mut i: usize = 0;
    while i < entries.len()
        invariant
            i <= entries@.len(),
            forall|j: int| 0 <= j < i ==> (#[trigger] entries@[j].0@) != key@,
        decreases entries@.len() - i,
    {
        if str_eq(entries[i].0.as_str(), key) {
            proof {
                lemma_obj_get_at(entries@, key@, i as int);
            }
            return Some(&entries[i].1);
        }
        i += 1;
    }
    proof {
        lemma_obj_get_none(entries@, key@);
    }
    None
}

proof fn lemma_obj_get_at(entries: Seq<(String, SettingsValue)>, key: Seq<char>, i: int)
    requires
        0 <= i < entries.len(),
        entries[i].0@ == key,
        forall|j: int| 0 <= j < i ==> (#[trigger] entries[j].0@) != key,
    ensures
        spec_obj_get(entries, key) == Some(i),
    decreases i,
{
    if i > 0 {
        lemma_obj_get_at(entries.drop_first(), key, i - 1);
    }
}

proof fn lemma_obj_get_none(entries: Seq<(String, SettingsValue)>, key: Seq<char>)
    requires
        forall|j: int| 0 <= j < entries.len() ==> (#[trigger] entries[j].0@) != key,
    ensures
        spec_obj_get(entries, key) is None,
    decreases entries.len(),
{
    if entries.len() > 0 {
        lemma_obj_get_none(entries.drop_first(), key);
    }
}

/// Store a value under a key: the first entry with that key is replaced,
/// otherwise the entry is appended.
pub fn obj_set(entries: &mut Vec<(String, SettingsValue)>, key: String, value: SettingsValue)
    ensures
        match spec_obj_get(old(entries)@, key@) {
            Some(i) => final(entries)@ == old(entries)@.update(i, (key, value)),
            None => final(entries)@ == old(entries)@.push((key, value)),
        },
{
    let mut i: usize = 0;
    while i < entries.len()
        invariant
            i <= entries@.len(),
            entries@ == old(entries)@,
            forall|j: int| 0 <= j < i ==> (#[trigger] entries@[j].0@) != key@,
        decreases entries@.len() - i,
    {
        if str_eq(entries[i].0.as_str(), key.as_str()) {
            proof {
                lemma_obj_get_at(entries@, key@, i as int);
            }
            entries.set(i, (key, value));
            return ;
        }
        i += 1;
    }
    proof {
        lemma_obj_get_none(entries@, key@);
    }
    entries.push((key, value));
}

/// Take the first value stored under a key out of the object.
pub fn obj_remove(entries: &mut Vec<(String, SettingsValue)>, key: &str) -> (r: Option<
    SettingsValue,
>)
    ensures
        match spec_obj_get(old(entries)@, key@) {
            Some(i) => r matches Some(v) && v == old(entries)@[i].1 && final(entries)@ == old(
                entries,
            )@.remove(i),
            None => r is None && final(entries)@ == old(entries)@,
        },
{
    let mut i: usize = 0;
    while i < entries.len()
        invariant
            i <= entries@.len(),
            entries@ == old(entries)@,
            forall|j: int| 0 <= j < i ==> (#[trigger] entries@[j].0@) != key@,
        decreases entries@.len() - i,
    {
        if str_eq(entries[i].0.as_str(), key) {
            proof {
                lemma_obj_get_at(entries@, key@, i as int);
            }
            let (_k, v) = entries.remove(i);
            return Some(v);
        }
        i += 1;
    }
    proof {
        lemma_obj_get_none(entries@, key@);
    }
    None
}

// ---------------------------------------------------------------------------
// The sanitization rules, one per field shape.
// ---------------------------------------------------------------------------

/// The string views of the string elements of an array value, empties
/// dropped; anything that is not an array contributes nothing.
pub open spec fn spec_string_items(items: Seq<SettingsValue>) -> Seq<Seq<char>>
    decreases items.len(),
{
    if items.len() == 0 {
        Seq::<Seq<char>>::empty()
    } else {
        let rest = spec_string_items(items.drop_first());
        match items[0] {
            SettingsValue::Str(s) => if s@.len() > 0 {
                seq![s@] + rest
            } else {
                rest
            },
            _ => rest,
        }
    }
}

/// Collect the nonempty strings of an array value.
#[verifier::loop_isolation(false)]
pub fn extract_string_vec(value: &SettingsValue) -> (r: Vec<String>)
    ensures
        match value {
            SettingsValue::Arr(items) => r.deep_view() == spec_string_items(items@),
            _ => r.deep_view() == Seq::<Seq<char>>::empty(),
        },
{
    let mut out: Vec<String> = Vec::new();
    proof {
        assert(out.deep_view() =~= Seq::<Seq<char>>::empty());
    }
    match value {
        SettingsValue::Arr(items) => {
            proof {
                assert(items@.skip(0) =~= items@);
            }
            let mut i: usize = 0;
            while i < items.len()
                invariant
                    i <= items@.len(),
                    out.deep_view() + spec_string_items(items@.skip(i as int))
                        =~= spec_string_items(items@),
                decreases items@.len() - i,
            {
                proof {
                    assert(items@.skip(i as int)[0] == items@[i as int]);
                    assert(items@.skip(i as int).drop_first() =~= items@.skip(i + 1));
                }
                let ghost acc0 = out.deep_view();
                match &items[i] {
                    SettingsValue::Str(s) => {
                        if !s.as_str().is_empty() {
                            out.push(s.clone());
                            proof {
                                assert(out.deep_view() =~= acc0.push(s@));
                            }
                        }
                    },
                    _ => {},
                }
                i += 1;
                proof {
                    assert(out.deep_view() + spec_string_items(items@.skip(i as int))
                        =~= spec_string_items(items@));
                }
            }
            proof {
                assert(items@.skip(items@.len() as int) =~= Seq::<SettingsValue>::empty());
            }
            out
        },
        _ => out,
    }
}

/// Deduplication keeping first occurrences.
pub open spec fn dedup_first(items: Seq<Seq<char>>, acc: Seq<Seq<char>>) -> Seq<Seq<char>>
    decreases items.len(),
{
    if items.len() == 0 {
        acc
    } else if acc.contains(items[0]) {
        dedup_first(items.drop_first(), acc)
    } else {
        dedup_first(items.drop_first(), acc.push(items[0]))
    }
}

/// Normalize an array setting: keep the nonempty strings, drop duplicates.
/// Anything that is not an array becomes the empty array.  First occurrences
/// are kept in order.
#[verifier::loop_isolation(false)]
pub fn normalize_string_array(input: &SettingsValue) -> (r: SettingsValue)
    ensures
        r matches SettingsValue::Arr(out) && all_strings_view(out@) == dedup_first(
            match input {
                SettingsValue::Arr(items) => spec_string_items(items@),
                _ => Seq::<Seq<char>>::empty(),
            },
            Seq::<Seq<char>>::empty(),
        ) && all_strings(out@),
{
    let strings = extract_string_vec(input);
    let mut kept: Vec<String> = Vec::new();
    proof {
        assert(kept.deep_view() =~= Seq::<Seq<char>>::empty());
        assert(strings.deep_view().skip(0) =~= strings.deep_view());
    }
    let mut i: usize = 0;
    while i < strings.len()
        invariant
            i <= strings@.len(),
            dedup_first(strings.deep_view().skip(i as int), kept.deep_view()) == dedup_first(
                strings.deep_view(),
                Seq::<Seq<char>>::empty(),
            ),
        decreases strings@.len() - i,
    {
        proof {
            assert(strings.deep_view().skip(i as int)[0] == strings.deep_view()[i as int]);
            assert(strings.deep_view().skip(i as int).drop_first() =~= strings.deep_view().skip(
                i + 1,
            ));
        }
        let ghost acc0 = kept.deep_view();
        if !crate::strutil::contains_string(&kept, &strings[i]) {
            kept.push(strings[i].clone());
            proof {
                assert(kept.deep_view() =~= acc0.push(strings.deep_view()[i as int]));
            }
        }
        i += 1;
    }
    proof {
        assert(strings.deep_view().skip(strings.deep_view().len() as int)
            =~= Seq::<Seq<char>>::empty());
    }
    let mut out: Vec<SettingsValue> = Vec::new();
    let mut k: usize = 0;
    while k < kept.len()
        invariant
            k <= kept@.len(),
            all_strings(out@),
            all_strings_view(out@) =~= kept.deep_view().subrange(0, k as int),
        decreases kept@.len() - k,
    {
        let ghost pre = out@;
        out.push(SettingsValue::Str(kept[k].clone()));
        k += 1;
        proof {
            assert(out@.drop_last() =~= pre);
            reveal_all_strings_push(pre, out@.last());
            assert(all_strings_view(out@) =~= kept.deep_view().subrange(0, k as int));
        }
    }
    proof {
        assert(kept.deep_view().subrange(0, kept.deep_view().len() as int)
            =~= kept.deep_view());
    }
    SettingsValue::Arr(out)
}

/// Whether every element of an array is a string.
pub open spec fn all_strings(items: Seq<SettingsValue>) -> bool {
    forall|i: int| 0 <= i < items.len() ==> (#[trigger] items[i]) matches SettingsValue::Str(_)
}

/// The views of an all-string array's elements.
pub open spec fn all_strings_view(items: Seq<SettingsValue>) -> Seq<Seq<char>> {
    items.map_values(
        |v: SettingsValue|
            match v {
                SettingsValue::Str(s) => s@,
                _ => Seq::<char>::empty(),
            },
    )
}

proof fn reveal_all_strings_push(pre: Seq<SettingsValue>, x: SettingsValue)
    ensures
        all_strings_view(pre.push(x)) =~= all_strings_view(pre).push(
            match x {
                SettingsValue::Str(s) => s@,
                _ => Seq::<char>::empty(),
            },
        ),
{
}

/// A theme variant must be exactly `light` or `dark`.
pub fn theme_variant_acceptable(s: &str) -> (r: bool)
    ensures
        r == (s@ == "light"@ || s@ == "dark"@),
{
    str_eq(s, "light") || str_eq(s, "dark")
}

/// The retention period in days is forced into one to three hundred and
/// sixty-five; anything below one (negative values included) becomes one.
pub fn clamp_auto_delete_days(n: i64) -> (r: i64)
    ensures
        r == if n < 1 {
            1i64
        } else if n > 365 {
            365i64
        } else {
            n
        },
{
    if n < 1 {
        1
    } else if n > 365 {
        365
    } else {
        n
    }
}

/// What expanding a leading tilde against a home directory yields.
pub open spec fn spec_expand_tilde(home: Seq<char>, s: Seq<char>) -> Seq<char> {
    if s == "~"@ {
        home
    } else if s.len() >= 2 && s[0] == '~' && s[1] == '/' {
        home + s.skip(1)
    } else {
        s
    }
}

/// Expand a leading tilde in a configured directory against the home
/// directory the caller resolved.
pub fn expand_tilde_path(home: &str, s: &str) -> (r: String)
    ensures
        r@ == spec_expand_tilde(home@, s@),
{
    proof {
        reveal_strlit("~");
    }
    if str_eq(s, "~") {
        return String::from_str(home);
    }
    let cs = crate::chars::str_chars(s);
    if cs.len() >= 2 && cs[0] == '~' && cs[1] == '/' {
        proof {
            assert(s@ != "~"@);
        }
        let rest = crate::chars::chars_range_string(&cs, 1, cs.len());
        proof {
            assert(rest@ =~= s@.skip(1));
        }
        String::from_str(home).concat(rest.as_str())
    } else {
        proof {
            if s@.len() >= 2 && s@[0] == '~' && s@[1] == '/' {
                assert(cs@[0] == '~' && cs@[1] == '/');
            }
        }
        String::from_str(s)
    }
}

/// One typography field folded into the kept entries: appended when it is
/// stored as a nonempty string.
pub open spec fn typo_step(
    entries: Seq<(String, SettingsValue)>,
    key: Seq<char>,
    acc: Seq<(Seq<char>, Seq<char>)>,
) -> Seq<(Seq<char>, Seq<char>)> {
    match spec_obj_get(entries, key) {
        Some(i) => match entries[i].1 {
            SettingsValue::Str(s) => if s@.len() > 0 {
                acc.push((key, s@))
            } else {
                acc
            },
            _ => acc,
        },
        None => acc,
    }
}

/// The typography entries kept from an object: the accepted keys in their
/// fixed order, each with its nonempty string value.
pub open spec fn spec_typo_kept(entries: Seq<(String, SettingsValue)>) -> Seq<
    (Seq<char>, Seq<char>),
> {
    typo_step(
        entries,
        "micro"@,
        typo_step(
            entries,
            "meta"@,
            typo_step(
                entries,
                "uiLabel"@,
                typo_step(
                    entries,
                    "uiHeader"@,
                    typo_step(
                        entries,
                        "code"@,
                        typo_step(
                            entries,
                            "markdown"@,
                            Seq::<(Seq<char>, Seq<char>)>::empty(),
                        ),
                    ),
                ),
            ),
        ),
    )
}

/// The key and string-value views of an object whose values are strings.
pub open spec fn entries_pairs_view(entries: Seq<(String, SettingsValue)>) -> Seq<
    (Seq<char>, Seq<char>),
> {
    entries.map_values(
        |e: (String, SettingsValue)|
            (
                e.0@,
                match e.1 {
                    SettingsValue::Str(s) => s@,
                    _ => Seq::<char>::empty(),
                },
            ),
    )
}

proof fn reveal_pairs_push(pre: Seq<(String, SettingsValue)>, x: (String, SettingsValue))
    ensures
        entries_pairs_view(pre.push(x)) =~= entries_pairs_view(pre).push(
            (
                x.0@,
                match x.1 {
                    SettingsValue::Str(s) => s@,
                    _ => Seq::<char>::empty(),
                },
            ),
        ),
{
}

/// Keep the accepted, nonempty string typography sizes of a partial update;
/// nothing is returned when none survive or the input is not an object.
pub fn sanitize_typography_sizes_partial(input: &SettingsValue) -> (r: Option<SettingsValue>)
    ensures
        match input {
            SettingsValue::Obj(entries) => {
                let kept = spec_typo_kept(entries@);
                if kept.len() > 0 {
                    r matches Some(SettingsValue::Obj(out)) && entries_pairs_view(out@) == kept
                } else {
                    r is None
                }
            },
            _ => r is None,
        },
{
    match input {
        SettingsValue::Obj(entries) => {
            let mut out: Vec<(String, SettingsValue)> = Vec::new();
            proof {
                assert(entries_pairs_view(out@) =~= Seq::<(Seq<char>, Seq<char>)>::empty());
            }
            typo_take(entries, &mut out, "markdown");
            typo_take(entries, &mut out, "code");
            typo_take(entries, &mut out, "uiHeader");
            typo_take(entries, &mut out, "uiLabel");
            typo_take(entries, &mut out, "meta");
            typo_take(entries, &mut out, "micro");
            if out.len() > 0 {
                Some(SettingsValue::Obj(out))
            } else {
                proof {
                    assert(entries_pairs_view(out@).len() == 0);
                }
                None
            }
        },
        _ => None,
    }
}

/// Append one typography field to the kept entries if it is stored as a
/// nonempty string.
fn typo_take(
    entries: &Vec<(String, SettingsValue)>,
    out: &mut Vec<(String, SettingsValue)>,
    key: &str,
)
    ensures
        entries_pairs_view(final(out)@) == typo_step(
            entries@,
            key@,
            entries_pairs_view(old(out)@),
        ),
        final(out)@.len() >= old(out)@.len(),
        entries_pairs_view(final(out)@).len() >= final(out)@.len() == entries_pairs_view(
            final(out)@,
        ).len(),
{
    let mut i: usize = 0;
    while i < entries.len()
        invariant
            i <= entries@.len(),
            out@ == old(out)@,
            forall|j: int| 0 <= j < i ==> (#[trigger] entries@[j].0@) != key@,
        decreases entries@.len() - i,
    {
        if str_eq(entries[i].0.as_str(), key) {
            proof {
                lemma_obj_get_at(entries@, key@, i as int);
            }
            match &entries[i].1 {
                SettingsValue::Str(s) => {
                    if !s.as_str().is_empty() {
                        let ghost pre = out@;
                        out.push((entries[i].0.clone(), SettingsValue::Str(s.clone())));
                        proof {
                            assert(out@ =~= pre.push((entries@[i as int].0, entries@[i as int].1)));
                            reveal_pairs_push(pre, (entries@[i as int].0, entries@[i as int].1));
                            assert(entries_pairs_view(out@) =~= entries_pairs_view(pre).push(
                                (key@, s@),
                            ));
                        }
                    }
                },
                _ => {},
            }
            return ;
        }
        i += 1;
    }
    proof {
        lemma_obj_get_none(entries@, key@);
    }
}

// ---------------------------------------------------------------------------
// The sanitized update.
// ---------------------------------------------------------------------------

/// The fields a settings update may carry.
pub open spec fn accepted_key(k: Seq<char>) -> bool {
    ||| plain_string_key(k)
    ||| bool_key(k)
    ||| array_key(k)
    ||| k == "themeVariant"@
    ||| k == "autoDeleteAfterDays"@
    ||| k == "typographySizes"@
    ||| k == "skillCatalogs"@
}

/// The keys that carry a plain nonempty string.
pub open spec fn plain_string_key(k: Seq<char>) -> bool {
    ||| k == "themeId"@
    ||| k == "lightThemeId"@
    ||| k == "darkThemeId"@
    ||| k == "lastDirectory"@
    ||| k == "homeDirectory"@
    ||| k == "uiFont"@
    ||| k == "monoFont"@
    ||| k == "markdownDisplayMode"@
    ||| k == "defaultModel"@
    ||| k == "defaultAgent"@
}

/// The keys that carry a boolean.
pub open spec fn bool_key(k: Seq<char>) -> bool {
    ||| k == "useSystemTheme"@
    ||| k == "showReasoningTraces"@
    ||| k == "autoDeleteEnabled"@
    ||| k == "queueModeEnabled"@
}

/// The keys that carry a deduplicated nonempty-string array.
pub open spec fn array_key(k: Seq<char>) -> bool {
    ||| k == "approvedDirectories"@
    ||| k == "securityScopedBookmarks"@
    ||| k == "pinnedDirectories"@
}

/// A deduplicated array of nonempty strings.
pub open spec fn clean_string_array(v: SettingsValue) -> bool {
    &&& v is Arr
    &&& (v matches SettingsValue::Arr(items) ==> {
        &&& all_strings(items@)
        &&& (forall|i: int|
            0 <= i < items@.len() ==> (match #[trigger] items@[i] {
                SettingsValue::Str(s) => s@.len() > 0,
                _ => false,
            }))
        &&& (forall|i: int, j: int|
            0 <= i < j < items@.len() ==> all_strings_view(items@)[i] != all_strings_view(
                items@,
            )[j])
    })
}

/// Every field of a sanitized update obeys the rule for its key.
pub open spec fn sanitized_entry_ok(k: Seq<char>, v: SettingsValue) -> bool {
    &&& accepted_key(k)
    &&& (plain_string_key(k) ==> (v matches SettingsValue::Str(s) && s@.len() > 0))
    &&& (k == "themeVariant"@ ==> (v matches SettingsValue::Str(s) && (s@ == "light"@ || s@
        == "dark"@)))
    &&& (bool_key(k) ==> v is Bool)
    &&& (k == "autoDeleteAfterDays"@ ==> (v matches SettingsValue::Num(n) && 1 <= n <= 365))
    &&& (array_key(k) ==> clean_string_array(v))
    &&& (k == "typographySizes"@ ==> (v matches SettingsValue::Obj(es) && es@.len() > 0))
    &&& (k == "skillCatalogs"@ ==> (v matches SettingsValue::Arr(cats) && cats@.len() > 0))
}

/// A sanitized update: every entry obeys its key's rule.
pub open spec fn sanitized_obj(out: Seq<(String, SettingsValue)>) -> bool {
    forall|j: int| 0 <= j < out.len() ==> sanitized_entry_ok((#[trigger] out[j]).0@, out[j].1)
}

/// The key classes are disjoint, and the special keys lie outside every
/// class and apart from one another.
proof fn lemma_settings_key_facts()
    ensures
        forall|k: Seq<char>| #[trigger]
            plain_string_key(k) ==> !bool_key(k) && !array_key(k) && k != "themeVariant"@ && k
                != "autoDeleteAfterDays"@ && k != "typographySizes"@ && k != "skillCatalogs"@,
        forall|k: Seq<char>| #[trigger]
            bool_key(k) ==> !array_key(k) && k != "themeVariant"@ && k
                != "autoDeleteAfterDays"@ && k != "typographySizes"@ && k != "skillCatalogs"@,
        forall|k: Seq<char>| #[trigger]
            array_key(k) ==> k != "themeVariant"@ && k != "autoDeleteAfterDays"@ && k
                != "typographySizes"@ && k != "skillCatalogs"@,
        "themeVariant"@ != "autoDeleteAfterDays"@,
        "themeVariant"@ != "typographySizes"@,
        "themeVariant"@ != "skillCatalogs"@,
        "autoDeleteAfterDays"@ != "typographySizes"@,
        "autoDeleteAfterDays"@ != "skillCatalogs"@,
        "typographySizes"@ != "skillCatalogs"@,
        !plain_string_key("themeVariant"@) && !bool_key("themeVariant"@) && !array_key(
            "themeVariant"@,
        ),
        !plain_string_key("autoDeleteAfterDays"@) && !bool_key("autoDeleteAfterDays"@)
            && !array_key("autoDeleteAfterDays"@),
        !plain_string_key("typographySizes"@) && !bool_key("typographySizes"@) && !array_key(
            "typographySizes"@,
        ),
        !plain_string_key("skillCatalogs"@) && !bool_key("skillCatalogs"@) && !array_key(
            "skillCatalogs"@,
        ),
        "light"@.len() == 5 && "dark"@.len() == 4,
{
    reveal_strlit("light");
    reveal_strlit("dark");
    reveal_strlit("themeId");
    reveal_strlit("themeVariant");
    reveal_strlit("lightThemeId");
    reveal_strlit("darkThemeId");
    reveal_strlit("lastDirectory");
    reveal_strlit("homeDirectory");
    reveal_strlit("uiFont");
    reveal_strlit("monoFont");
    reveal_strlit("markdownDisplayMode");
    reveal_strlit("defaultModel");
    reveal_strlit("defaultAgent");
    reveal_strlit("useSystemTheme");
    reveal_strlit("showReasoningTraces");
    reveal_strlit("autoDeleteEnabled");
    reveal_strlit("queueModeEnabled");
    reveal_strlit("autoDeleteAfterDays");
    reveal_strlit("approvedDirectories");
    reveal_strlit("securityScopedBookmarks");
    reveal_strlit("pinnedDirectories");
    reveal_strlit("typographySizes");
    reveal_strlit("skillCatalogs");
    assert("themeId"@.len() == 7);
    assert("themeVariant"@.len() == 12);
    assert("lightThemeId"@.len() == 12);
    assert("darkThemeId"@.len() == 11);
    assert("lastDirectory"@.len() == 13);
    assert("homeDirectory"@.len() == 13);
    assert("uiFont"@.len() == 6);
    assert("monoFont"@.len() == 8);
    assert("markdownDisplayMode"@.len() == 19);
    assert("defaultModel"@.len() == 12);
    assert("defaultAgent"@.len() == 12);
    assert("useSystemTheme"@.len() == 14);
    assert("showReasoningTraces"@.len() == 19);
    assert("autoDeleteEnabled"@.len() == 17);
    assert("queueModeEnabled"@.len() == 16);
    assert("autoDeleteAfterDays"@.len() == 19);
    assert("approvedDirectories"@.len() == 19);
    assert("securityScopedBookmarks"@.len() == 23);
    assert("pinnedDirectories"@.len() == 17);
    assert("typographySizes"@.len() == 15);
    assert("skillCatalogs"@.len() == 13);
    assert("themeVariant"@[0] == 't' && "lightThemeId"@[0] == 'l' && "defaultModel"@[0] == 'd'
        && "defaultAgent"@[7] == 'A' && "defaultModel"@[7] == 'M');
    assert("markdownDisplayMode"@[0] == 'm' && "autoDeleteAfterDays"@[0] == 'a'
        && "showReasoningTraces"@[0] == 's' && "approvedDirectories"@[1] == 'p'
        && "autoDeleteAfterDays"@[1] == 'u' && "autoDeleteEnabled"@[0] == 'a'
        && "pinnedDirectories"@[0] == 'p' && "lastDirectory"@[0] == 'l'
        && "homeDirectory"@[0] == 'h' && "skillCatalogs"@[0] == 's');
    assert("themeVariant"@ != "lightThemeId"@ && "themeVariant"@ != "defaultModel"@
        && "themeVariant"@ != "defaultAgent"@);
    assert("markdownDisplayMode"@ != "autoDeleteAfterDays"@);
    assert("showReasoningTraces"@ != "autoDeleteAfterDays"@);
    assert("showReasoningTraces"@ != "approvedDirectories"@);
    assert("autoDeleteEnabled"@ != "pinnedDirectories"@);
    assert("approvedDirectories"@ != "autoDeleteAfterDays"@);
}

/// Store a sanitized entry, keeping the update sanitized.
fn set_sanitized(out: &mut Vec<(String, SettingsValue)>, key: String, value: SettingsValue)
    requires
        sanitized_obj(old(out)@),
        sanitized_entry_ok(key@, value),
    ensures
        sanitized_obj(final(out)@),
{
    let ghost pre = out@;
    let ghost kv = key@;
    let ghost entry = (key, value);
    proof {
        lemma_obj_get_in_range(pre, kv);
    }
    obj_set(out, key, value);
    proof {
        assert forall|j: int| 0 <= j < out@.len() implies sanitized_entry_ok(
            (#[trigger] out@[j]).0@,
            out@[j].1,
        ) by {
            match spec_obj_get(pre, kv) {
                Some(i) => {
                    if j == i {
                        assert(out@[j] == entry);
                    } else {
                        assert(out@[j] == pre[j]);
                    }
                },
                None => {
                    if j == out@.len() - 1 {
                        assert(out@[j] == entry);
                    } else {
                        assert(out@[j] == pre[j]);
                    }
                },
            }
        }
    }
}

proof fn lemma_obj_get_in_range(entries: Seq<(String, SettingsValue)>, key: Seq<char>)
    ensures
        spec_obj_get(entries, key) matches Some(i) ==> 0 <= i < entries.len(),
    decreases entries.len(),
{
    if entries.len() > 0 && entries[0].0@ != key {
        lemma_obj_get_in_range(entries.drop_first(), key);
    }
}

/// Nonempty strings survive the string-item extraction.
proof fn lemma_string_items_nonempty(items: Seq<SettingsValue>)
    ensures
        forall|i: int|
            0 <= i < spec_string_items(items).len() ==> (#[trigger] spec_string_items(
                items,
            )[i]).len() > 0,
    decreases items.len(),
{
    if items.len() > 0 {
        lemma_string_items_nonempty(items.drop_first());
        let rest = spec_string_items(items.drop_first());
        let whole = spec_string_items(items);
        assert forall|i: int| 0 <= i < whole.len() implies (#[trigger] whole[i]).len() > 0 by {
            match items[0] {
                SettingsValue::Str(s) => {
                    if s@.len() > 0 {
                        if i == 0 {
                            assert(whole[0] == s@);
                        } else {
                            assert(whole[i] == rest[i - 1]);
                        }
                    } else {
                        assert(whole[i] == rest[i]);
                    }
                },
                _ => {
                    assert(whole[i] == rest[i]);
                },
            }
        }
    }
}

/// Deduplication keeps nonemptiness and yields pairwise distinct items.
proof fn lemma_dedup_first_clean(items: Seq<Seq<char>>, acc: Seq<Seq<char>>)
    requires
        forall|i: int| 0 <= i < items.len() ==> (#[trigger] items[i]).len() > 0,
        forall|i: int| 0 <= i < acc.len() ==> (#[trigger] acc[i]).len() > 0,
        forall|i: int, j: int| 0 <= i < j < acc.len() ==> acc[i] != acc[j],
    ensures
        forall|i: int|
            0 <= i < dedup_first(items, acc).len() ==> (#[trigger] dedup_first(items, acc)[i]).len()
                > 0,
        forall|i: int, j: int|
            0 <= i < j < dedup_first(items, acc).len() ==> dedup_first(items, acc)[i]
                != dedup_first(items, acc)[j],
    decreases items.len(),
{
    if items.len() > 0 {
        let h = items[0];
        assert(forall|i: int|
            0 <= i < items.drop_first().len() ==> (#[trigger] items.drop_first()[i]).len() > 0);
        if acc.contains(h) {
            lemma_dedup_first_clean(items.drop_first(), acc);
            assert(dedup_first(items, acc) == dedup_first(items.drop_first(), acc));
        } else {
            assert(forall|i: int| 0 <= i < acc.len() ==> (#[trigger] acc[i]) != h);
            assert(h.len() > 0);
            let acc1 = acc.push(h);
            assert(forall|i: int| 0 <= i < acc1.len() ==> (#[trigger] acc1[i]).len() > 0);
            assert(forall|i: int, j: int| 0 <= i < j < acc1.len() ==> acc1[i] != acc1[j]);
            lemma_dedup_first_clean(items.drop_first(), acc1);
            assert(dedup_first(items, acc) == dedup_first(items.drop_first(), acc1));
        }
    }
}

/// A normalized string array is clean.
proof fn lemma_normalized_clean(input: SettingsValue, r: SettingsValue)
    requires
        r matches SettingsValue::Arr(out) && all_strings_view(out@) == dedup_first(
            match input {
                SettingsValue::Arr(items) => spec_string_items(items@),
                _ => Seq::<Seq<char>>::empty(),
            },
            Seq::<Seq<char>>::empty(),
        ) && all_strings(out@),
    ensures
        clean_string_array(r),
{
    let src = (match input {
        SettingsValue::Arr(items) => spec_string_items(items@),
        _ => Seq::<Seq<char>>::empty(),
    });
    match input {
        SettingsValue::Arr(items) => {
            lemma_string_items_nonempty(items@);
        },
        _ => {},
    }
    lemma_dedup_first_clean(src, Seq::<Seq<char>>::empty());
    match r {
        SettingsValue::Arr(out) => {
            assert forall|i: int| 0 <= i < out@.len() implies (match #[trigger] out@[i] {
                SettingsValue::Str(s) => s@.len() > 0,
                _ => false,
            }) by {
                assert(all_strings_view(out@)[i].len() > 0);
                assert(out@[i] matches SettingsValue::Str(_));
                match out@[i] {
                    SettingsValue::Str(s) => {
                        assert(all_strings_view(out@)[i] == s@);
                    },
                    _ => {},
                }
            }
        },
        _ => {},
    }
}

/// Keep only the accepted fields of a settings update, each reduced to its
/// rule: nonempty strings for the plain fields, `light` or `dark` for the
/// variant, tilde expansion against the resolved home directory for the
/// directory fields, clamped retention days, deduplicated directory arrays,
/// the surviving typography sizes, and the well-formed catalog entries with
/// the first occurrence of each identifier.  Anything else is dropped.
#[verifier::rlimit(50)]
pub fn sanitize_settings_update(payload: &SettingsValue, home_dir: &str) -> (r: SettingsValue)
    ensures
        r matches SettingsValue::Obj(out) && sanitized_obj(out@),
        !(payload is Obj) ==> (r matches SettingsValue::Obj(out) && out@.len() == 0),
{
    proof {
        lemma_settings_key_facts();
    }
    let mut out: Vec<(String, SettingsValue)> = Vec::new();
    let entries = match payload {
        SettingsValue::Obj(entries) => entries,
        _ => {
            return SettingsValue::Obj(out);
        },
    };
    take_plain_string(entries, &mut out, "themeId");
    take_plain_string(entries, &mut out, "lightThemeId");
    take_plain_string(entries, &mut out, "darkThemeId");
    take_plain_string(entries, &mut out, "uiFont");
    take_plain_string(entries, &mut out, "monoFont");
    take_plain_string(entries, &mut out, "markdownDisplayMode");
    take_plain_string(entries, &mut out, "defaultModel");
    take_plain_string(entries, &mut out, "defaultAgent");
    if let Some(SettingsValue::Str(s)) = obj_get(entries, "themeVariant") {
        if theme_variant_acceptable(s.as_str()) {
            set_sanitized(&mut out, String::from_str("themeVariant"), SettingsValue::Str(s.clone()));
        }
    }
    if let Some(SettingsValue::Str(s)) = obj_get(entries, "lastDirectory") {
        if !s.as_str().is_empty() {
            let expanded = expand_tilde_path(home_dir, s.as_str());
            if !expanded.as_str().is_empty() {
                proof {
                    assert(plain_string_key("lastDirectory"@));
                    assert(sanitized_entry_ok("lastDirectory"@, SettingsValue::Str(expanded)));
                }
                set_sanitized(
                    &mut out,
                    String::from_str("lastDirectory"),
                    SettingsValue::Str(expanded),
                );
            }
        }
    }
    if let Some(SettingsValue::Str(s)) = obj_get(entries, "homeDirectory") {
        if !s.as_str().is_empty() {
            let expanded = expand_tilde_path(home_dir, s.as_str());
            if !expanded.as_str().is_empty() {
                proof {
                    assert(plain_string_key("homeDirectory"@));
                    assert(sanitized_entry_ok("homeDirectory"@, SettingsValue::Str(expanded)));
                }
                set_sanitized(
                    &mut out,
                    String::from_str("homeDirectory"),
                    SettingsValue::Str(expanded),
                );
            }
        }
    }
    take_bool(entries, &mut out, "useSystemTheme");
    take_bool(entries, &mut out, "showReasoningTraces");
    take_bool(entries, &mut out, "autoDeleteEnabled");
    take_bool(entries, &mut out, "queueModeEnabled");
    if let Some(SettingsValue::Num(n)) = obj_get(entries, "autoDeleteAfterDays") {
        let clamped = clamp_auto_delete_days(*n);
        set_sanitized(
            &mut out,
            String::from_str("autoDeleteAfterDays"),
            SettingsValue::Num(clamped),
        );
    }
    take_array(entries, &mut out, "approvedDirectories");
    take_array(entries, &mut out, "securityScopedBookmarks");
    take_array(entries, &mut out, "pinnedDirectories");
    if let Some(typo) = obj_get(entries, "typographySizes") {
        match sanitize_typography_sizes_partial(typo) {
            Some(kept) => {
                proof {
                    assert(kept matches SettingsValue::Obj(es) && es@.len() > 0) by {
                        match typo {
                            SettingsValue::Obj(es0) => {
                                assert(spec_typo_kept(es0@).len() > 0);
                            },
                            _ => {},
                        }
                    }
                }
                set_sanitized(&mut out, String::from_str("typographySizes"), kept);
            },
            None => {},
        }
    }
    if let Some(SettingsValue::Arr(catalogs)) = obj_get(entries, "skillCatalogs") {
        let kept = sanitize_skill_catalogs(catalogs);
        if kept.len() > 0 {
            set_sanitized(&mut out, String::from_str("skillCatalogs"), SettingsValue::Arr(kept));
        }
    }
    SettingsValue::Obj(out)
}

/// Take a plain string field over if it is stored as a nonempty string.
fn take_plain_string(
    entries: &Vec<(String, SettingsValue)>,
    out: &mut Vec<(String, SettingsValue)>,
    key: &str,
)
    requires
        sanitized_obj(old(out)@),
        plain_string_key(key@),
    ensures
        sanitized_obj(final(out)@),
{
    proof {
        lemma_settings_key_facts();
    }
    if let Some(SettingsValue::Str(s)) = obj_get(entries, key) {
        if !s.as_str().is_empty() {
            set_sanitized(out, String::from_str(key), SettingsValue::Str(s.clone()));
        }
    }
}

/// Take a boolean field over.
fn take_bool(
    entries: &Vec<(String, SettingsValue)>,
    out: &mut Vec<(String, SettingsValue)>,
    key: &str,
)
    requires
        sanitized_obj(old(out)@),
        bool_key(key@),
    ensures
        sanitized_obj(final(out)@),
{
    proof {
        lemma_settings_key_facts();
    }
    if let Some(SettingsValue::Bool(b)) = obj_get(entries, key) {
        set_sanitized(out, String::from_str(key), SettingsValue::Bool(*b));
    }
}

/// Take an array field over, normalized.
fn take_array(
    entries: &Vec<(String, SettingsValue)>,
    out: &mut Vec<(String, SettingsValue)>,
    key: &str,
)
    requires
        sanitized_obj(old(out)@),
        array_key(key@),
    ensures
        sanitized_obj(final(out)@),
{
    proof {
        lemma_settings_key_facts();
    }
    match obj_get(entries, key) {
        Some(value) => {
            let normalized = normalize_string_array(value);
            proof {
                lemma_normalized_clean(*value, normalized);
            }
            set_sanitized(out, String::from_str(key), normalized);
        },
        None => {},
    }
}

/// Keep the well-formed catalog entries: trimmed identifier, label and
/// source all nonempty, the first occurrence of each identifier winning;
/// optional fields survive only when nonempty after trimming.
fn sanitize_skill_catalogs(catalogs: &Vec<SettingsValue>) -> (kept: Vec<SettingsValue>) {
    let mut seen: Vec<String> = Vec::new();
    let mut kept: Vec<SettingsValue> = Vec::new();
    let mut i: usize = 0;
    while i < catalogs.len()
        decreases catalogs@.len() - i,
    {
        match &catalogs[i] {
            SettingsValue::Obj(obj) => {
                let id = trimmed_string_field(obj, "id");
                let label = trimmed_string_field(obj, "label");
                let source = trimmed_string_field(obj, "source");
                let subpath = trimmed_string_field(obj, "subpath");
                let git_identity_id = trimmed_string_field(obj, "gitIdentityId");
                if !id.as_str().is_empty() && !label.as_str().is_empty()
                    && !source.as_str().is_empty() && !crate::strutil::contains_string(
                    &seen,
                    &id,
                ) {
                    seen.push(id.clone());
                    let mut catalog: Vec<(String, SettingsValue)> = Vec::new();
                    obj_set(&mut catalog, String::from_str("id"), SettingsValue::Str(id));
                    obj_set(&mut catalog, String::from_str("label"), SettingsValue::Str(label));
                    obj_set(&mut catalog, String::from_str("source"), SettingsValue::Str(source));
                    if !subpath.as_str().is_empty() {
                        obj_set(
                            &mut catalog,
                            String::from_str("subpath"),
                            SettingsValue::Str(subpath),
                        );
                    }
                    if !git_identity_id.as_str().is_empty() {
                        obj_set(
                            &mut catalog,
                            String::from_str("gitIdentityId"),
                            SettingsValue::Str(git_identity_id),
                        );
                    }
                    kept.push(SettingsValue::Obj(catalog));
                }
            },
            _ => {},
        }
        i += 1;
    }
    kept
}

/// A string field of an object, trimmed; empty when absent or not a string.
fn trimmed_string_field(entries: &Vec<(String, SettingsValue)>, key: &str) -> (r: String) {
    match obj_get(entries, key) {
        Some(SettingsValue::Str(s)) => trim_string(s.as_str()),
        _ => String::new(),
    }
}

} // verus!