//! The configuration model and the tag resolver: service declarations, kind
//! defaults, the merge of a declaration's tags with its kind's default tags,
//! and the substitution of the service-name placeholder.

use vstd::prelude::*;

verus! {

use vstd::string::*;
use crate::consul::Consul;
use crate::consul::ServiceCheck;
use crate::consul::ServiceCheckView;
use crate::consul::duplicate_check;
use crate::strutil::clone_strings;
use crate::strutil::find_char;
use crate::strutil::first_index_of;
use crate::strutil::has_char;
use crate::strutil::lemma_first_index_of;
use crate::strutil::str_eq;
use crate::strutil::trim_str;

/// A tag of the shape `key=value`; a tag without `=` is an opaque flag.
pub open spec fn is_kv(t: Seq<char>) -> bool {
    has_char(t, '=')
}

/// The key of a tag: the part before its first `=` (the whole tag when
/// there is none), with surrounding whitespace stripped.
pub open spec fn tag_key(t: Seq<char>) -> Seq<char> {
    crate::strutil::trim_seq(t.subrange(0, first_index_of(t, '=')))
}

/// The value of a tag: the part after its first `=`, with surrounding
/// whitespace stripped.
pub open spec fn tag_value(t: Seq<char>) -> Seq<char> {
    crate::strutil::trim_seq(t.subrange(first_index_of(t, '=') + 1, t.len() as int))
}

/// Some `key=value` tag in `tags` has key `k`.
pub open spec fn has_key(tags: Seq<Seq<char>>, k: Seq<char>) -> bool {
    exists|j: int| 0 <= j < tags.len() && is_kv(tags[j]) && tag_key(tags[j]) == k
}

/// The first `key=value` tag in `tags` whose key is `k`.
pub open spec fn first_with_key(tags: Seq<Seq<char>>, k: Seq<char>) -> Seq<char>
    decreases tags.len(),
{
    if tags.len() == 0 {
        Seq::empty()
    } else if is_kv(tags.first()) && tag_key(tags.first()) == k {
        tags.first()
    } else {
        first_with_key(tags.drop_first(), k)
    }
}

pub proof fn lemma_first_with_key(tags: Seq<Seq<char>>, k: Seq<char>, j: int)
    requires
        0 <= j < tags.len(),
        is_kv(tags[j]) && tag_key(tags[j]) == k,
        forall|l: int| 0 <= l < j ==> !(is_kv(#[trigger] tags[l]) && tag_key(tags[l]) == k),
    ensures
        first_with_key(tags, k) == tags[j],
    decreases tags.len(),
{
    if j > 0 {
        lemma_first_with_key(tags.drop_first(), k, j - 1);
    }
}

/// Splits a tag of the shape `key=value` on its first `=`, stripping
/// whitespace around both parts; a string without `=` yields `None`.
pub fn extract_key_value(input: &str) -> (r: Option<(&str, &str)>)
    ensures
        match r {
            Some(kv) => {
                &&& has_char(input@, '=')
                &&& kv.0@ == tag_key(input@)
                &&& kv.1@ == tag_value(input@)
            },
            None => !has_char(input@, '='),
        },
{
    let n: usize = input.unicode_len();
    match find_char(input, '=') {
        Some(i) => {
            let key = trim_str(input.substring_char(0, i));
            let value = trim_str(input.substring_char(i + 1, n));
            Some((key, value))
        },
        None => None,
    }
}

/// Whether the tag holds a `key=value` pair.
pub fn tag_is_kv(t: &str) -> (b: bool)
    ensures
        b == is_kv(t@),
{
    match find_char(t, '=') {
        Some(_) => true,
        None => false,
    }
}

/// The key of a tag: the part before its first `=`, or the whole tag, with
/// surrounding whitespace stripped.
pub fn tag_key_str(t: &str) -> (k: String)
    ensures
        k@ == tag_key(t@),
{
    proof {
        lemma_first_index_of(t@, '=');
    }
    let n: usize = t.unicode_len();
    match find_char(t, '=') {
        Some(i) => String::from_str(trim_str(t.substring_char(0, i))),
        None => {
            let r = String::from_str(trim_str(t));
            proof {
                assert(t@.subrange(0, t@.len() as int) =~= t@);
            }
            r
        },
    }
}

/// Whether some `key=value` tag in `tags` has key `k`.
pub fn tags_have_key(tags: &Vec<String>, k: &str) -> (b: bool)
    ensures
        b == has_key(tags.deep_view(), k@),
{
    let mut i: usize = 0;
    while i < tags.len()
        invariant
            i <= tags.len(),
            forall|l: int|
                0 <= l < i ==> !(is_kv(#[trigger] tags.deep_view()[l]) && tag_key(
                    tags.deep_view()[l],
                ) == k@),
        decreases tags.len() - i,
    {
        if tag_is_kv(tags[i].as_str()) {
            let key = tag_key_str(tags[i].as_str());
            if str_eq(key.as_str(), k) {
                proof {
                    assert(is_kv(tags.deep_view()[i as int]) && tag_key(
                        tags.deep_view()[i as int],
                    ) == k@);
                }
                return true;
            }
        }
        i = i + 1;
    }
    false
}

/// The position of the first `key=value` tag in `tags` whose key is `k`.
pub fn find_first_with_key(tags: &Vec<String>, k: &str) -> (r: Option<usize>)
    ensures
        match r {
            Some(j) => has_key(tags.deep_view(), k@) && j < tags.len()
                && tags.deep_view()[j as int] == first_with_key(tags.deep_view(), k@),
            None => !has_key(tags.deep_view(), k@),
        },
{
    let mut i: usize = 0;
    while i < tags.len()
        invariant
            i <= tags.len(),
            forall|l: int|
                0 <= l < i ==> !(is_kv(#[trigger] tags.deep_view()[l]) && tag_key(
                    tags.deep_view()[l],
                ) == k@),
        decreases tags.len() - i,
    {
        if tag_is_kv(tags[i].as_str()) {
            let key = tag_key_str(tags[i].as_str());
            if str_eq(key.as_str(), k) {
                proof {
                    lemma_first_with_key(tags.deep_view(), k@, i as int);
                }
                return Some(i);
            }
        }
        i = i + 1;
    }
    None
}

/// The kind's default tags merged against the declaration's own tags,
/// default by default, left to right: a default whose key was already placed
/// is dropped, a default whose key the declaration also declares is replaced
/// by the declaration's first tag with that key, and any other default is
/// kept as it stands.
pub open spec fn merge_defaults(defaults: Seq<Seq<char>>, strong: Seq<Seq<char>>) -> Seq<
    Seq<char>,
>
    decreases defaults.len(),
{
    if defaults.len() == 0 {
        Seq::empty()
    } else {
        let prev = merge_defaults(defaults.drop_last(), strong);
        let d = defaults.last();
        if is_kv(d) {
            if has_key(prev, tag_key(d)) {
                prev
            } else if has_key(strong, tag_key(d)) {
                prev.push(first_with_key(strong, tag_key(d)))
            } else {
                prev.push(d)
            }
        } else {
            prev.push(d)
        }
    }
}

/// The declaration's own tags appended after the merged defaults: a
/// `key=value` tag whose key was already placed is dropped, every other tag
/// is appended in declaration order.
pub open spec fn append_strong(acc: Seq<Seq<char>>, strong: Seq<Seq<char>>) -> Seq<Seq<char>>
    decreases strong.len(),
{
    if strong.len() == 0 {
        acc
    } else {
        let prev = append_strong(acc, strong.drop_last());
        let s = strong.last();
        if is_kv(s) && has_key(prev, tag_key(s)) {
            prev
        } else {
            prev.push(s)
        }
    }
}

/// The full tag merge: the kind's default tags (`defaults`) merged with the
/// declaration's own tags (`strong`), declaration tags winning on equal
/// keys.
pub open spec fn merged_tags(defaults: Seq<Seq<char>>, strong: Seq<Seq<char>>) -> Seq<Seq<char>> {
    append_strong(merge_defaults(defaults, strong), strong)
}

/// No two `key=value` entries of `tags` share a key.
pub open spec fn kv_keys_unique(tags: Seq<Seq<char>>) -> bool {
    forall|i: int, j: int|
        0 <= i < j < tags.len() && is_kv(#[trigger] tags[i]) && is_kv(#[trigger] tags[j])
            ==> tag_key(tags[i]) != tag_key(tags[j])
}

/// The first tag with key `k` is a `key=value` tag with key `k`, and one of
/// the list's elements.
pub proof fn lemma_first_with_key_props(tags: Seq<Seq<char>>, k: Seq<char>)
    requires
        has_key(tags, k),
    ensures
        is_kv(first_with_key(tags, k)),
        tag_key(first_with_key(tags, k)) == k,
        tags.contains(first_with_key(tags, k)),
    decreases tags.len(),
{
    if is_kv(tags.first()) && tag_key(tags.first()) == k {
    } else {
        let j = choose|j: int| 0 <= j < tags.len() && is_kv(tags[j]) && tag_key(tags[j]) == k;
        assert(tags.drop_first()[j - 1] == tags[j]);
        assert(has_key(tags.drop_first(), k));
        lemma_first_with_key_props(tags.drop_first(), k);
        let t = first_with_key(tags.drop_first(), k);
        let l = choose|l: int| 0 <= l < tags.drop_first().len() && tags.drop_first()[l] == t;
        assert(tags[l + 1] == t);
    }
}

proof fn lemma_merge_defaults_props(defaults: Seq<Seq<char>>, strong: Seq<Seq<char>>)
    ensures
        ({
            let r = merge_defaults(defaults, strong);
            &&& kv_keys_unique(r)
            &&& forall|i: int|
                0 <= i < r.len() && is_kv(#[trigger] r[i]) && has_key(strong, tag_key(r[i]))
                    ==> r[i] == first_with_key(strong, tag_key(r[i]))
        }),
    decreases defaults.len(),
{
    if defaults.len() == 0 {
    } else {
        lemma_merge_defaults_props(defaults.drop_last(), strong);
        let prev = merge_defaults(defaults.drop_last(), strong);
        let d = defaults.last();
        let r = merge_defaults(defaults, strong);
        if is_kv(d) && !has_key(prev, tag_key(d)) && has_key(strong, tag_key(d)) {
            lemma_first_with_key_props(strong, tag_key(d));
        }
        if r != prev {
            assert(r.len() == prev.len() + 1);
            assert(forall|i: int| 0 <= i < prev.len() ==> r[i] == prev[i]);
        }
    }
}

proof fn lemma_append_strong_props(acc0: Seq<Seq<char>>, strong: Seq<Seq<char>>, m: int)
    requires
        0 <= m <= strong.len(),
        kv_keys_unique(acc0),
        forall|i: int|
            0 <= i < acc0.len() && is_kv(#[trigger] acc0[i]) && has_key(strong, tag_key(acc0[i]))
                ==> acc0[i] == first_with_key(strong, tag_key(acc0[i])),
    ensures
        ({
            let r = append_strong(acc0, strong.take(m));
            &&& kv_keys_unique(r)
            &&& forall|i: int|
                0 <= i < r.len() && is_kv(#[trigger] r[i]) && has_key(strong, tag_key(r[i]))
                    ==> r[i] == first_with_key(strong, tag_key(r[i]))
            &&& forall|j: int|
                0 <= j < m && is_kv(#[trigger] strong[j]) ==> has_key(r, tag_key(strong[j]))
        }),
    decreases m,
{
    if m == 0 {
        assert(strong.take(0) =~= Seq::<Seq<char>>::empty());
    } else {
        lemma_append_strong_props(acc0, strong, m - 1);
        let prev = append_strong(acc0, strong.take(m - 1));
        let cur = strong.take(m);
        assert(cur.drop_last() =~= strong.take(m - 1));
        assert(cur.last() == strong[m - 1]);
        let s = strong[m - 1];
        let r = append_strong(acc0, cur);
        if is_kv(s) && has_key(prev, tag_key(s)) {
            assert(r == prev);
            assert(has_key(r, tag_key(strong[m - 1])));
        } else {
            assert(r == prev.push(s));
            assert(forall|i: int| 0 <= i < prev.len() ==> r[i] == prev[i]);
            assert(r[r.len() - 1] == s);
            if is_kv(s) {
                let k = tag_key(s);
                assert forall|l: int|
                    0 <= l < m - 1 implies !(is_kv(#[trigger] strong[l]) && tag_key(strong[l])
                    == k) by {
                    if is_kv(strong[l]) && tag_key(strong[l]) == k {
                        assert(has_key(prev, k));
                    }
                }
                lemma_first_with_key(strong, k, m - 1);
                assert(s == first_with_key(strong, k));
                assert(has_key(r, tag_key(strong[m - 1])));
            }
            assert(forall|j: int|
                0 <= j < m - 1 && is_kv(#[trigger] strong[j]) ==> has_key(
                    prev,
                    tag_key(strong[j]),
                ));
            assert forall|j: int|
                0 <= j < m && is_kv(#[trigger] strong[j]) implies has_key(
                r,
                tag_key(strong[j]),
            ) by {
                if j < m - 1 {
                    let w = choose|w: int|
                        0 <= w < prev.len() && is_kv(prev[w]) && tag_key(prev[w]) == tag_key(
                            strong[j],
                        );
                    assert(r[w] == prev[w]);
                }
            }
        }
    }
}

/// After resolution the merged tag list holds no two `key=value` entries
/// with the same key.
pub proof fn lemma_merged_tags_unique_keys(defaults: Seq<Seq<char>>, strong: Seq<Seq<char>>)
    ensures
        kv_keys_unique(merged_tags(defaults, strong)),
{
    lemma_merge_defaults_props(defaults, strong);
    lemma_append_strong_props(merge_defaults(defaults, strong), strong, strong.len() as int);
    assert(strong.take(strong.len() as int) =~= strong);
}

/// A declaration tag with key `K` always overrides a default tag with key
/// `K`: every `key=value` entry of the merged list whose key the
/// declaration also declares is the declaration's first tag with that key,
/// and every key the declaration declares is present.
pub proof fn lemma_declaration_overrides(defaults: Seq<Seq<char>>, strong: Seq<Seq<char>>)
    ensures
        forall|i: int|
            0 <= i < merged_tags(defaults, strong).len() && is_kv(
                #[trigger] merged_tags(defaults, strong)[i],
            ) && has_key(strong, tag_key(merged_tags(defaults, strong)[i]))
                ==> merged_tags(defaults, strong)[i] == first_with_key(
                strong,
                tag_key(merged_tags(defaults, strong)[i]),
            ),
        forall|j: int|
            0 <= j < strong.len() && is_kv(#[trigger] strong[j]) ==> has_key(
                merged_tags(defaults, strong),
                tag_key(strong[j]),
            ),
{
    lemma_merge_defaults_props(defaults, strong);
    lemma_append_strong_props(merge_defaults(defaults, strong), strong, strong.len() as int);
    assert(strong.take(strong.len() as int) =~= strong);
}

/// The service-name placeholder that kind defaults may carry.
pub open spec fn placeholder_seq() -> Seq<char> {
    "SERVICE_NAME"@
}

/// The placeholder as a string slice.
pub fn placeholder_str() -> (r: &'static str)
    ensures
        r@ == placeholder_seq(),
{
    "SERVICE_NAME"
}

/// Every tag with each occurrence of the placeholder replaced by `name`.
pub open spec fn substituted_tags(tags: Seq<Seq<char>>, name: Seq<char>) -> Seq<Seq<char>> {
    tags.map_values(|t: Seq<char>| crate::strutil::replace_seq(t, placeholder_seq(), name))
}

/// Placeholder substitution is total: after substitution no tag holds the
/// placeholder, provided the service's name is nonempty and shares no
/// character with the placeholder. (A name that overlaps the placeholder's
/// characters can re-form it across a substitution boundary.)
pub proof fn lemma_substitution_total(tags: Seq<Seq<char>>, name: Seq<char>)
    requires
        0 < name.len(),
        crate::strutil::chars_disjoint(name, placeholder_seq()),
    ensures
        forall|i: int|
            0 <= i < tags.len() ==> !crate::strutil::contains_seq(
                #[trigger] substituted_tags(tags, name)[i],
                placeholder_seq(),
            ),
{
    reveal_strlit("SERVICE_NAME");
    assert forall|i: int|
        0 <= i < tags.len() implies !crate::strutil::contains_seq(
        #[trigger] substituted_tags(tags, name)[i],
        placeholder_seq(),
    ) by {
        crate::strutil::lemma_replace_removes_pattern(tags[i], placeholder_seq(), name);
        assert(substituted_tags(tags, name)[i] == crate::strutil::replace_seq(
            tags[i],
            placeholder_seq(),
            name,
        ));
    }
}

/// A kind whose defaults live in a separate file.
#[derive(Debug, Clone)]
pub struct ExternalKindConfig {
    pub name: String,
    pub filename: String,
}

pub ghost struct ExternalKindConfigView {
    pub name: Seq<char>,
    pub filename: Seq<char>,
}

impl View for ExternalKindConfig {
    type V = ExternalKindConfigView;

    open spec fn view(&self) -> ExternalKindConfigView {
        ExternalKindConfigView { name: self.name@, filename: self.filename@ }
    }
}

impl DeepView for ExternalKindConfig {
    type V = ExternalKindConfigView;

    open spec fn deep_view(&self) -> ExternalKindConfigView {
        self.view()
    }
}

/// A kind declared inline in the main configuration: a name and its default
/// tags.
#[derive(Debug, Clone)]
pub struct KindConfig {
    pub name: String,
    pub tags: Vec<String>,
}

pub ghost struct KindConfigView {
    pub name: Seq<char>,
    pub tags: Seq<Seq<char>>,
}

impl View for KindConfig {
    type V = KindConfigView;

    open spec fn view(&self) -> KindConfigView {
        KindConfigView { name: self.name@, tags: self.tags.deep_view() }
    }
}

impl DeepView for KindConfig {
    type V = KindConfigView;

    open spec fn deep_view(&self) -> KindConfigView {
        self.view()
    }
}

/// One declared service: the unit of desired state.
#[derive(Debug, Clone)]
pub struct ServiceConfig {
    pub name: String,
    pub kind: String,
    pub port: u16,
    pub address: String,
    pub tags: Vec<String>,
    pub check: Option<ServiceCheck>,
}

pub ghost struct ServiceConfigView {
    pub name: Seq<char>,
    pub kind: Seq<char>,
    pub port: u16,
    pub address: Seq<char>,
    pub tags: Seq<Seq<char>>,
    pub check: Option<ServiceCheckView>,
}

impl View for ServiceConfig {
    type V = ServiceConfigView;

    open spec fn view(&self) -> ServiceConfigView {
        ServiceConfigView {
            name: self.name@,
            kind: self.kind@,
            port: self.port,
            address: self.address@,
            tags: self.tags.deep_view(),
            check: match self.check {
                Some(c) => Some(c@),
                None => None,
            },
        }
    }
}

impl DeepView for ServiceConfig {
    type V = ServiceConfigView;

    open spec fn deep_view(&self) -> ServiceConfigView {
        self.view()
    }
}

impl Default for ServiceConfig {
    /// An empty declaration: empty strings, port zero, no tags, no check.
    fn default() -> (r: Self)
        ensures
            r@.name == Seq::<char>::empty(),
            r@.kind == Seq::<char>::empty(),
            r@.port == 0,
            r@.address == Seq::<char>::empty(),
            r@.tags == Seq::<Seq<char>>::empty(),
            r@.check is None,
    {
        let r = ServiceConfig {
            name: String::new(),
            kind: String::new(),
            port: 0,
            address: String::new(),
            tags: Vec::new(),
            check: None,
        };
        proof {
            assert(r.tags.deep_view() =~= Seq::<Seq<char>>::empty());
        }
        r
    }
}

impl ServiceConfig {
    /// Copies the declaration, preserving its contents.
    pub fn duplicate(&self) -> (r: Self)
        ensures
            r@ == self@,
    {
        ServiceConfig {
            name: self.name.clone(),
            kind: self.kind.clone(),
            port: self.port,
            address: self.address.clone(),
            tags: clone_strings(&self.tags),
            check: duplicate_check(&self.check),
        }
    }

    /// Merges the kind's default tags (`tags`) into this declaration's own
    /// tags. Defaults come first, keeping their order; a default whose key
    /// this declaration also declares is replaced in place by the
    /// declaration's tag; the declaration's remaining tags are appended; no
    /// key is placed twice.
    pub fn update_tags(&mut self, tags: Vec<String>)
        ensures
            final(self)@ == (ServiceConfigView {
                tags: merged_tags(tags.deep_view(), old(self)@.tags),
                ..old(self)@
            }),
    {
        let ghost strong = self.tags.deep_view();
        let mut result: Vec<String> = Vec::new();
        let mut i: usize = 0;
        proof {
            assert(tags.deep_view().take(0) =~= Seq::<Seq<char>>::empty());
            assert(result.deep_view() =~= Seq::<Seq<char>>::empty());
        }
        while i < tags.len()
            invariant
                i <= tags.len(),
                *self == *old(self),
                strong == self.tags.deep_view(),
                result.deep_view() == merge_defaults(tags.deep_view().take(i as int), strong),
            decreases tags.len() - i,
        {
            let d = &tags[i];
            if tag_is_kv(d.as_str()) {
                let key = tag_key_str(d.as_str());
                if tags_have_key(&result, key.as_str()) {
                    // this key was already placed by an earlier default
                } else {
                    match find_first_with_key(&self.tags, key.as_str()) {
                        Some(j) => {
                            result.push(self.tags[j].clone());
                        },
                        None => {
                            result.push(d.clone());
                        },
                    }
                }
            } else {
                result.push(d.clone());
            }
            proof {
                let taken = tags.deep_view().take(i + 1);
                assert(taken.drop_last() =~= tags.deep_view().take(i as int));
                assert(taken.last() == tags.deep_view()[i as int]);
                assert(result.deep_view() == merge_defaults(taken, strong));
            }
            i = i + 1;
        }
        proof {
            assert(tags.deep_view().take(tags.len() as int) =~= tags.deep_view());
        }
        let ghost phase1 = result.deep_view();
        let mut j: usize = 0;
        proof {
            assert(strong.take(0) =~= Seq::<Seq<char>>::empty());
        }
        while j < self.tags.len()
            invariant
                j <= self.tags.len(),
                *self == *old(self),
                strong == self.tags.deep_view(),
                phase1 == merge_defaults(tags.deep_view(), strong),
                result.deep_view() == append_strong(phase1, strong.take(j as int)),
            decreases self.tags.len() - j,
        {
            let s = &self.tags[j];
            if tag_is_kv(s.as_str()) {
                let key = tag_key_str(s.as_str());
                if !tags_have_key(&result, key.as_str()) {
                    result.push(s.clone());
                }
            } else {
                result.push(s.clone());
            }
            proof {
                let taken = strong.take(j + 1);
                assert(taken.drop_last() =~= strong.take(j as int));
                assert(taken.last() == strong[j as int]);
                assert(result.deep_view() == append_strong(phase1, taken));
            }
            j = j + 1;
        }
        proof {
            assert(strong.take(self.tags.len() as int) =~= strong);
        }
        self.tags = result;
    }

    /// Replaces every occurrence of the service-name placeholder in this
    /// declaration's tags by the service's own name.
    pub fn replace_service_name(&mut self)
        ensures
            final(self)@ == (ServiceConfigView {
                tags: substituted_tags(old(self)@.tags, old(self)@.name),
                ..old(self)@
            }),
    {
        let ghost tags0 = self.tags.deep_view();
        let ghost name = self.name@;
        let placeholder = placeholder_str();
        proof {
            reveal_strlit("SERVICE_NAME");
        }
        let mut result: Vec<String> = Vec::new();
        let mut i: usize = 0;
        proof {
            assert(result.deep_view() =~= substituted_tags(tags0.take(0), name));
        }
        while i < self.tags.len()
            invariant
                i <= self.tags.len(),
                *self == *old(self),
                tags0 == self.tags.deep_view(),
                name == self.name@,
                placeholder@ == placeholder_seq(),
                placeholder_seq().len() > 0,
                result.deep_view() == substituted_tags(tags0.take(i as int), name),
            decreases self.tags.len() - i,
        {
            let ghost before = result.deep_view();
            let replaced = crate::strutil::replace_str(
                self.tags[i].as_str(),
                placeholder,
                self.name.as_str(),
            );
            proof {
                assert(tags0[i as int] == self.tags@[i as int]@);
                assert(replaced@ == crate::strutil::replace_seq(
                    tags0[i as int],
                    placeholder_seq(),
                    name,
                ));
            }
            result.push(replaced);
            proof {
                let prev = tags0.take(i as int);
                let cur = tags0.take(i + 1);
                assert(tags0.len() == self.tags@.len());
                assert(prev.len() == i as int);
                assert(before.len() == i as int);
                assert(result.deep_view() =~= substituted_tags(cur, name)) by {
                    assert(result.deep_view().len() == i + 1);
                    assert(substituted_tags(cur, name).len() == i + 1);
                    assert forall|k: int| 0 <= k < i + 1 implies result.deep_view()[k]
                        == substituted_tags(cur, name)[k] by {
                        assert(substituted_tags(cur, name)[k] == crate::strutil::replace_seq(
                            cur[k],
                            placeholder_seq(),
                            name,
                        ));
                        assert(cur[k] == tags0[k]);
                        if k < i {
                            assert(result.deep_view()[k] == before[k]);
                            assert(before[k] == substituted_tags(prev, name)[k]);
                            assert(substituted_tags(prev, name)[k]
                                == crate::strutil::replace_seq(prev[k], placeholder_seq(), name));
                            assert(prev[k] == tags0[k]);
                        } else {
                            assert(result.deep_view()[k] == replaced@);
                        }
                    }
                }
            }
            i = i + 1;
        }
        proof {
            assert(tags0.take(self.tags.len() as int) =~= tags0);
        }
        self.tags = result;
    }
}

/// A value supplied for one field by a kind file: a number, a string, or a
/// list of tag strings.
#[derive(Debug, Clone)]
pub enum FieldValue {
    Int(u64),
    Text(String),
    List(Vec<String>),
}

pub ghost enum FieldValueView {
    Int(u64),
    Text(Seq<char>),
    List(Seq<Seq<char>>),
}

impl View for FieldValue {
    type V = FieldValueView;

    open spec fn view(&self) -> FieldValueView {
        match self {
            FieldValue::Int(n) => FieldValueView::Int(*n),
            FieldValue::Text(s) => FieldValueView::Text(s@),
            FieldValue::List(v) => FieldValueView::List(v.deep_view()),
        }
    }
}

impl DeepView for FieldValue {
    type V = FieldValueView;

    open spec fn deep_view(&self) -> FieldValueView {
        self.view()
    }
}

impl FieldValue {
    /// Copies the value, preserving its contents.
    pub fn duplicate(&self) -> (r: Self)
        ensures
            r@ == self@,
    {
        match self {
            FieldValue::Int(n) => FieldValue::Int(*n),
            FieldValue::Text(s) => FieldValue::Text(s.clone()),
            FieldValue::List(v) => FieldValue::List(clone_strings(v)),
        }
    }
}

/// A fatal configuration fault, found before any reconciliation begins.
#[derive(Debug, Clone)]
pub enum ConfigError {
    /// A kind file supplied a field this model does not know.
    UnknownField(String),
    /// A field value had the wrong shape or was out of range.
    InvalidValue(String),
}

pub ghost enum ConfigErrorView {
    UnknownField(Seq<char>),
    InvalidValue(Seq<char>),
}

impl View for ConfigError {
    type V = ConfigErrorView;

    open spec fn view(&self) -> ConfigErrorView {
        match self {
            ConfigError::UnknownField(s) => ConfigErrorView::UnknownField(s@),
            ConfigError::InvalidValue(s) => ConfigErrorView::InvalidValue(s@),
        }
    }
}

impl DeepView for ConfigError {
    type V = ConfigErrorView;

    open spec fn deep_view(&self) -> ConfigErrorView {
        self.view()
    }
}

impl ConfigError {
    /// The fault as readable text.
    pub fn message(&self) -> (r: String)
        ensures
            match self@ {
                ConfigErrorView::UnknownField(f) => r@ == "Unknown field: "@ + f,
                ConfigErrorView::InvalidValue(f) => r@ == "Invalid value for field: "@ + f,
            },
    {
        match self {
            ConfigError::UnknownField(f) => {
                let mut r = String::from_str("Unknown field: ");
                r.append(f.as_str());
                r
            },
            ConfigError::InvalidValue(f) => {
                let mut r = String::from_str("Invalid value for field: ");
                r.append(f.as_str());
                r
            },
        }
    }
}

/// What one kind-file field does to a declaration: a `port` or `address`
/// value is copied onto the declaration only where the declaration supplies
/// none (port zero and the empty address stand for absent) — a value
/// present on both takes the declaration's; `tags` merges the kind's tags
/// in and substitutes the placeholder; any other field is unknown. A
/// malformed value is a fault even where the declaration's value would
/// win.
pub open spec fn apply_field(
    s: ServiceConfigView,
    key: Seq<char>,
    value: FieldValueView,
) -> Result<ServiceConfigView, ConfigErrorView> {
    if key == "port"@ {
        match value {
            FieldValueView::Int(n) => if n > u16::MAX as u64 {
                Err(ConfigErrorView::InvalidValue(key))
            } else if s.port == 0 {
                Ok(ServiceConfigView { port: n as u16, ..s })
            } else {
                Ok(s)
            },
            _ => Err(ConfigErrorView::InvalidValue(key)),
        }
    } else if key == "address"@ {
        match value {
            FieldValueView::Text(a) => if s.address.len() == 0 {
                Ok(ServiceConfigView { address: a, ..s })
            } else {
                Ok(s)
            },
            _ => Err(ConfigErrorView::InvalidValue(key)),
        }
    } else if key == "tags"@ {
        match value {
            FieldValueView::List(ts) => Ok(
                ServiceConfigView {
                    tags: substituted_tags(merged_tags(ts, s.tags), s.name),
                    ..s
                },
            ),
            _ => Err(ConfigErrorView::InvalidValue(key)),
        }
    } else {
        Err(ConfigErrorView::UnknownField(key))
    }
}

/// What a whole kind file does to a declaration: its fields applied in
/// order, the `name` and `kind` fields skipped, stopping at the first fault.
pub open spec fn apply_fields(
    s: ServiceConfigView,
    fields: Seq<(Seq<char>, FieldValueView)>,
) -> Result<ServiceConfigView, ConfigErrorView>
    decreases fields.len(),
{
    if fields.len() == 0 {
        Ok(s)
    } else {
        let key = fields.first().0;
        let value = fields.first().1;
        if key == "name"@ || key == "kind"@ {
            apply_fields(s, fields.drop_first())
        } else {
            match apply_field(s, key, value) {
                Ok(s2) => apply_fields(s2, fields.drop_first()),
                Err(e) => Err(e),
            }
        }
    }
}

/// The view of a list of named field values.
pub open spec fn fields_view(fields: Seq<(String, FieldValue)>) -> Seq<(Seq<char>, FieldValueView)> {
    fields.map_values(|p: (String, FieldValue)| (p.0@, p.1@))
}

impl ServiceConfig {
    /// Applies one kind-file field to this declaration: the kind's value is
    /// copied only where the declaration supplies none, and a value present
    /// on both takes the declaration's. An unknown field name or a
    /// malformed value is a fault and leaves the declaration unchanged.
    pub fn update_field(&mut self, key: &str, value: FieldValue) -> (r: Result<(), ConfigError>)
        ensures
            match apply_field(old(self)@, key@, value@) {
                Ok(v) => r is Ok && final(self)@ == v,
                Err(e) => r matches Err(err) && err@ == e && final(self)@ == old(self)@,
            },
    {
        if str_eq(key, "port") {
            match value {
                FieldValue::Int(n) => {
                    if n > 65535 {
                        Err(ConfigError::InvalidValue(String::from_str(key)))
                    } else {
                        if self.port == 0 {
                            self.port = n as u16;
                        }
                        Ok(())
                    }
                },
                _ => Err(ConfigError::InvalidValue(String::from_str(key))),
            }
        } else if str_eq(key, "address") {
            match value {
                FieldValue::Text(a) => {
                    if self.address.as_str().is_empty() {
                        self.address = a;
                    }
                    Ok(())
                },
                _ => Err(ConfigError::InvalidValue(String::from_str(key))),
            }
        } else if str_eq(key, "tags") {
            match value {
                FieldValue::List(ts) => {
                    self.update_tags(ts);
                    self.replace_service_name();
                    Ok(())
                },
                _ => Err(ConfigError::InvalidValue(String::from_str(key))),
            }
        } else {
            Err(ConfigError::UnknownField(String::from_str(key)))
        }
    }

    /// Applies a whole kind file to this declaration, field by field in the
    /// file's order; `name` and `kind` are never overridden. A fault stops
    /// the merge and reports the offending field; the declaration's name,
    /// kind and check are untouched either way.
    pub fn merge_from(&mut self, fields: &Vec<(String, FieldValue)>) -> (r: Result<
        (),
        ConfigError,
    >)
        ensures
            match apply_fields(old(self)@, fields_view(fields@)) {
                Ok(v) => r is Ok && final(self)@ == v,
                Err(e) => r matches Err(err) && err@ == e,
            },
            final(self)@.name == old(self)@.name,
            final(self)@.kind == old(self)@.kind,
            final(self)@.check == old(self)@.check,
    {
        let ghost all = fields_view(fields@);
        let mut i: usize = 0;
        proof {
            assert(all.skip(0) =~= all);
        }
        while i < fields.len()
            invariant
                i <= fields.len(),
                all == fields_view(fields@),
                apply_fields(old(self)@, all) == apply_fields(self@, all.skip(i as int)),
                self@.name == old(self)@.name,
                self@.kind == old(self)@.kind,
                self@.check == old(self)@.check,
            decreases fields.len() - i,
        {
            let ghost rest = all.skip(i as int);
            proof {
                assert(rest.first() == all[i as int]);
                assert(rest.drop_first() =~= all.skip(i + 1));
            }
            let key = &fields[i].0;
            if str_eq(key.as_str(), "name") || str_eq(key.as_str(), "kind") {
                // the kind file never renames or re-kinds a service
            } else {
                let value = fields[i].1.duplicate();
                match self.update_field(key.as_str(), value) {
                    Ok(()) => {},
                    Err(e) => {
                        return Err(e);
                    },
                }
            }
            i = i + 1;
        }
        proof {
            assert(all.skip(fields.len() as int) =~= Seq::<(Seq<char>, FieldValueView)>::empty());
        }
        Ok(())
    }
}

/// The whole configuration snapshot: the registry handle, the log level,
/// the declared services, and the declared kinds.
#[derive(Debug, Clone)]
pub struct Config {
    pub consul: Consul,
    pub log_level: Option<String>,
    pub services: Vec<ServiceConfig>,
    pub external_kinds: Vec<ExternalKindConfig>,
    pub kinds: Vec<KindConfig>,
}

pub ghost struct ConfigView {
    pub consul: crate::consul::ConsulView,
    pub log_level: Option<Seq<char>>,
    pub services: Seq<ServiceConfigView>,
    pub external_kinds: Seq<ExternalKindConfigView>,
    pub kinds: Seq<KindConfigView>,
}

impl View for Config {
    type V = ConfigView;

    open spec fn view(&self) -> ConfigView {
        ConfigView {
            consul: self.consul@,
            log_level: match self.log_level {
                Some(l) => Some(l@),
                None => None,
            },
            services: self.services.deep_view(),
            external_kinds: self.external_kinds.deep_view(),
            kinds: self.kinds.deep_view(),
        }
    }
}

/// The filename holding the defaults of `kind`: the first externally-filed
/// kind with that name, or the empty string when there is none.
pub open spec fn spec_kind_file(kinds: Seq<ExternalKindConfigView>, kind: Seq<char>) -> Seq<char>
    decreases kinds.len(),
{
    if kinds.len() == 0 {
        Seq::empty()
    } else if kinds.first().name == kind {
        kinds.first().filename
    } else {
        spec_kind_file(kinds.drop_first(), kind)
    }
}

/// The default tags of `kind`: those of the first inline kind with that
/// name, or none.
pub open spec fn spec_kind_tags(kinds: Seq<KindConfigView>, kind: Seq<char>) -> Seq<Seq<char>>
    decreases kinds.len(),
{
    if kinds.len() == 0 {
        Seq::empty()
    } else if kinds.first().name == kind {
        kinds.first().tags
    } else {
        spec_kind_tags(kinds.drop_first(), kind)
    }
}

impl Config {
    /// The filename of the external kind file for `kind`, or the empty
    /// string when the kind has none.
    pub fn get_kind_file(&self, kind: &str) -> (r: String)
        ensures
            r@ == spec_kind_file(self.external_kinds.deep_view(), kind@),
    {
        let ghost all = self.external_kinds.deep_view();
        let mut i: usize = 0;
        proof {
            assert(all.skip(0) =~= all);
        }
        while i < self.external_kinds.len()
            invariant
                i <= self.external_kinds.len(),
                all == self.external_kinds.deep_view(),
                spec_kind_file(all, kind@) == spec_kind_file(all.skip(i as int), kind@),
            decreases self.external_kinds.len() - i,
        {
            proof {
                assert(all.skip(i as int).first() == all[i as int]);
                assert(all.skip(i as int).drop_first() =~= all.skip(i + 1));
            }
            if str_eq(self.external_kinds[i].name.as_str(), kind) {
                return self.external_kinds[i].filename.clone();
            }
            i = i + 1;
        }
        proof {
            assert(all.skip(self.external_kinds.len() as int)
                =~= Seq::<ExternalKindConfigView>::empty());
        }
        String::new()
    }

    /// The default tags declared inline for `kind`, or none.
    pub fn get_kind_tags(&self, kind: &str) -> (r: Vec<String>)
        ensures
            r.deep_view() == spec_kind_tags(self.kinds.deep_view(), kind@),
    {
        let ghost all = self.kinds.deep_view();
        let mut i: usize = 0;
        proof {
            assert(all.skip(0) =~= all);
        }
        while i < self.kinds.len()
            invariant
                i <= self.kinds.len(),
                all == self.kinds.deep_view(),
                spec_kind_tags(all, kind@) == spec_kind_tags(all.skip(i as int), kind@),
            decreases self.kinds.len() - i,
        {
            proof {
                assert(all.skip(i as int).first() == all[i as int]);
                assert(all.skip(i as int).drop_first() =~= all.skip(i + 1));
            }
            if str_eq(self.kinds[i].name.as_str(), kind) {
                return clone_strings(&self.kinds[i].tags);
            }
            i = i + 1;
        }
        proof {
            assert(all.skip(self.kinds.len() as int) =~= Seq::<KindConfigView>::empty());
        }
        let r: Vec<String> = Vec::new();
        proof {
            assert(r.deep_view() =~= Seq::<Seq<char>>::empty());
        }
        r
    }
}

/// What resolving one declaration does: its kind file's fields applied in
/// order, then the kind's inline default tags merged in and the placeholder
/// substituted.
pub open spec fn spec_resolve_service(
    s: ServiceConfigView,
    fields: Seq<(Seq<char>, FieldValueView)>,
    kind_tags: Seq<Seq<char>>,
) -> Result<ServiceConfigView, ConfigErrorView> {
    match apply_fields(s, fields) {
        Ok(s2) => apply_field(s2, "tags"@, FieldValueView::List(kind_tags)),
        Err(e) => Err(e),
    }
}

impl ServiceConfig {
    /// Resolves this declaration against its kind: applies the kind file's
    /// fields, merges the kind's inline default tags, and substitutes the
    /// service-name placeholder. A fault reports the offending field; the
    /// declaration's name, kind and check are untouched either way.
    pub fn resolve(
        &mut self,
        kind_fields: &Vec<(String, FieldValue)>,
        kind_tags: Vec<String>,
    ) -> (r: Result<(), ConfigError>)
        ensures
            match spec_resolve_service(
                old(self)@,
                fields_view(kind_fields@),
                kind_tags.deep_view(),
            ) {
                Ok(v) => r is Ok && final(self)@ == v,
                Err(e) => r matches Err(err) && err@ == e,
            },
            final(self)@.name == old(self)@.name,
            final(self)@.kind == old(self)@.kind,
            final(self)@.check == old(self)@.check,
    {
        match self.merge_from(kind_fields) {
            Ok(()) => {},
            Err(e) => {
                return Err(e);
            },
        }
        self.update_field("tags", FieldValue::List(kind_tags))
    }
}

/// Field application never touches a declaration's name, kind or check.
proof fn lemma_apply_fields_frame(
    s: ServiceConfigView,
    fields: Seq<(Seq<char>, FieldValueView)>,
)
    ensures
        match apply_fields(s, fields) {
            Ok(v) => v.name == s.name && v.kind == s.kind && v.check == s.check,
            Err(_) => true,
        },
    decreases fields.len(),
{
    if fields.len() > 0 {
        let key = fields.first().0;
        let value = fields.first().1;
        if key == "name"@ || key == "kind"@ {
            lemma_apply_fields_frame(s, fields.drop_first());
        } else {
            match apply_field(s, key, value) {
                Ok(s2) => {
                    lemma_apply_fields_frame(s2, fields.drop_first());
                },
                Err(_) => {},
            }
        }
    }
}

/// Substitution is total through resolution: a successfully resolved
/// declaration holds no tag with the placeholder in it, provided its name
/// is nonempty and shares no character with the placeholder.
pub proof fn lemma_resolution_substitutes_totally(
    s: ServiceConfigView,
    fields: Seq<(Seq<char>, FieldValueView)>,
    kind_tags: Seq<Seq<char>>,
)
    requires
        0 < s.name.len(),
        crate::strutil::chars_disjoint(s.name, placeholder_seq()),
    ensures
        match spec_resolve_service(s, fields, kind_tags) {
            Ok(v) => forall|i: int|
                0 <= i < v.tags.len() ==> !crate::strutil::contains_seq(
                    #[trigger] v.tags[i],
                    placeholder_seq(),
                ),
            Err(_) => true,
        },
{
    lemma_apply_fields_frame(s, fields);
    match apply_fields(s, fields) {
        Ok(s2) => {
            lemma_substitution_total(merged_tags(kind_tags, s2.tags), s.name);
        },
        Err(_) => {},
    }
}

/// The fields of the kind file with the given name, or none when no such
/// file was read.
pub open spec fn lookup_fields(
    files: Seq<(Seq<char>, Seq<(Seq<char>, FieldValueView)>)>,
    filename: Seq<char>,
) -> Seq<(Seq<char>, FieldValueView)>
    decreases files.len(),
{
    if files.len() == 0 {
        Seq::empty()
    } else if files.first().0 == filename {
        files.first().1
    } else {
        lookup_fields(files.drop_first(), filename)
    }
}

/// The view of a list of kind files, each a filename with its fields.
pub open spec fn kind_files_view(files: Seq<(String, Vec<(String, FieldValue)>)>) -> Seq<
    (Seq<char>, Seq<(Seq<char>, FieldValueView)>),
> {
    files.map_values(|p: (String, Vec<(String, FieldValue)>)| (p.0@, fields_view(p.1@)))
}

/// The position of the first kind file with the given name.
fn find_kind_file(files: &Vec<(String, Vec<(String, FieldValue)>)>, filename: &str) -> (r: Option<
    usize,
>)
    ensures
        match r {
            Some(j) => j < files.len() && kind_files_view(files@)[j as int].0 == filename@
                && lookup_fields(kind_files_view(files@), filename@) == kind_files_view(
                files@,
            )[j as int].1,
            None => lookup_fields(kind_files_view(files@), filename@) == Seq::<
                (Seq<char>, FieldValueView),
            >::empty(),
        },
{
    let ghost all = kind_files_view(files@);
    let mut i: usize = 0;
    proof {
        assert(all.skip(0) =~= all);
    }
    while i < files.len()
        invariant
            i <= files.len(),
            all == kind_files_view(files@),
            all.len() == files.len(),
            lookup_fields(all, filename@) == lookup_fields(all.skip(i as int), filename@),
        decreases files.len() - i,
    {
        proof {
            assert(all.skip(i as int).first() == all[i as int]);
            assert(all.skip(i as int).drop_first() =~= all.skip(i + 1));
        }
        if str_eq(files[i].0.as_str(), filename) {
            return Some(i);
        }
        i = i + 1;
    }
    proof {
        assert(all.skip(files.len() as int)
            =~= Seq::<(Seq<char>, Seq<(Seq<char>, FieldValueView)>)>::empty());
    }
    None
}

/// What resolving the whole configuration does: each declaration resolved
/// in order against its kind's file and inline defaults, stopping at the
/// first fault.
pub open spec fn spec_resolve_all(
    services: Seq<ServiceConfigView>,
    external_kinds: Seq<ExternalKindConfigView>,
    kinds: Seq<KindConfigView>,
    files: Seq<(Seq<char>, Seq<(Seq<char>, FieldValueView)>)>,
) -> Result<Seq<ServiceConfigView>, ConfigErrorView>
    decreases services.len(),
{
    if services.len() == 0 {
        Ok(Seq::empty())
    } else {
        let s = services.first();
        let fields = lookup_fields(files, spec_kind_file(external_kinds, s.kind));
        match spec_resolve_service(s, fields, spec_kind_tags(kinds, s.kind)) {
            Ok(v) => match spec_resolve_all(services.drop_first(), external_kinds, kinds, files) {
                Ok(rest) => Ok(seq![v] + rest),
                Err(e) => Err(e),
            },
            Err(e) => Err(e),
        }
    }
}

/// Resolves every declared service against its kind, replacing the service
/// list wholesale; a fault leaves the configuration untouched and reports
/// the offending field.
pub fn resolve_config(
    config: &mut Config,
    kind_files: &Vec<(String, Vec<(String, FieldValue)>)>,
) -> (r: Result<(), ConfigError>)
    ensures
        match spec_resolve_all(
            old(config)@.services,
            old(config)@.external_kinds,
            old(config)@.kinds,
            kind_files_view(kind_files@),
        ) {
            Ok(vs) => r is Ok && final(config)@ == (ConfigView { services: vs, ..old(config)@ }),
            Err(e) => r matches Err(err) && err@ == e && final(config)@ == old(config)@,
        },
{
    let ghost services_v = config.services.deep_view();
    let ghost ekv = config.external_kinds.deep_view();
    let ghost kv = config.kinds.deep_view();
    let ghost fv = kind_files_view(kind_files@);
    let mut resolved: Vec<ServiceConfig> = Vec::new();
    let mut i: usize = 0;
    proof {
        assert(services_v.skip(0) =~= services_v);
        match spec_resolve_all(services_v, ekv, kv, fv) {
            Ok(rest) => {
                assert(resolved.deep_view() + rest =~= rest);
            },
            Err(_) => {},
        }
    }
    while i < config.services.len()
        invariant
            i <= config.services.len(),
            *config == *old(config),
            services_v == config.services.deep_view(),
            ekv == config.external_kinds.deep_view(),
            kv == config.kinds.deep_view(),
            fv == kind_files_view(kind_files@),
            spec_resolve_all(services_v, ekv, kv, fv) == (match spec_resolve_all(
                services_v.skip(i as int),
                ekv,
                kv,
                fv,
            ) {
                Ok(rest) => Ok::<Seq<ServiceConfigView>, ConfigErrorView>(
                    resolved.deep_view() + rest,
                ),
                Err(e) => Err(e),
            }),
        decreases config.services.len() - i,
    {
        let ghost before = resolved.deep_view();
        proof {
            assert(services_v.skip(i as int).first() == services_v[i as int]);
            assert(services_v.skip(i as int).drop_first() =~= services_v.skip(i + 1));
        }
        let mut svc = config.services[i].duplicate();
        let filename = config.get_kind_file(svc.kind.as_str());
        let kind_tags = config.get_kind_tags(svc.kind.as_str());
        let step = match find_kind_file(kind_files, filename.as_str()) {
            Some(j) => svc.resolve(&kind_files[j].1, kind_tags),
            None => {
                let empty_fields: Vec<(String, FieldValue)> = Vec::new();
                proof {
                    assert(fields_view(empty_fields@) =~= Seq::<
                        (Seq<char>, FieldValueView),
                    >::empty());
                }
                svc.resolve(&empty_fields, kind_tags)
            },
        };
        match step {
            Ok(()) => {
                resolved.push(svc);
                proof {
                    match spec_resolve_all(services_v.skip(i + 1), ekv, kv, fv) {
                        Ok(rest) => {
                            assert(before + (seq![svc@] + rest) =~= resolved.deep_view() + rest);
                        },
                        Err(_) => {},
                    }
                }
            },
            Err(e) => {
                return Err(e);
            },
        }
        i = i + 1;
    }
    proof {
        assert(services_v.skip(config.services.len() as int)
            =~= Seq::<ServiceConfigView>::empty());
        assert(resolved.deep_view() + Seq::<ServiceConfigView>::empty() =~= resolved.deep_view());
    }
    config.services = resolved;
    Ok(())
}

/// The snapshot to run with after a reload: the freshly read configuration
/// when the reload succeeded, else the previous snapshot, kept in force.
pub fn select_snapshot(current: Config, reloaded: Option<Config>) -> (c: Config)
    ensures
        match reloaded {
            Some(n) => c == n,
            None => c == current,
        },
{
    match reloaded {
        Some(n) => n,
        None => current,
    }
}

} // verus!
