//! Shares and the requests for new ones.

use crate::collections::Duplicate;
use crate::text::Chars;
use vstd::prelude::*;

verus! {

/// Which way the files of a Share move.
#[derive(Clone, Copy, Debug, PartialEq, Eq, Structural)]
pub enum SyncMode {
    Bidirectional,
    ToAndroid,
    ToPc,
}

impl Default for SyncMode {
    fn default() -> (r: Self)
        ensures
            r == SyncMode::Bidirectional,
    {
        SyncMode::Bidirectional
    }
}

/// Whose files count when a Share gets another folder on the phone.
#[derive(Clone, Copy, Debug, PartialEq, Eq, Structural)]
pub enum RemapPolicy {
    Pc,
    Android,
    Compare,
}

/// An optional string as a mathematical value.
pub open spec fn owned_text(s: Option<String>) -> Option<Chars> {
    match s {
        Some(t) => Some(t@),
        None => None,
    }
}

/// Copies an optional string.
pub fn copy_text(s: &Option<String>) -> (r: Option<String>)
    ensures
        owned_text(r) == owned_text(*s),
{
    match s {
        Some(t) => Some(t.clone()),
        None => None,
    }
}

/// Whether two optional strings agree.
pub fn same_text(a: &Option<String>, b: &Option<String>) -> (r: bool)
    ensures
        r == (owned_text(*a) == owned_text(*b)),
{
    match (a, b) {
        (None, None) => true,
        (Some(x), Some(y)) => crate::text::same(x.as_str(), y.as_str()),
        _ => false,
    }
}

/// A pair of folders that are kept equal, as the PC knows it.
#[derive(Clone, Debug)]
pub struct ShareConfig {
    pub share_id: String,
    pub name: String,
    /// The folder on the PC, an absolute path.
    pub root: String,
    /// How often the folder on the phone was chosen anew.
    pub binding_revision: u64,
    pub mode: SyncMode,
    pub enabled: bool,
    /// Ignore rules of configurations that kept them outside the folder.
    pub legacy_ignore: String,
    /// The phone's request that led to the Share.
    pub request_id: Option<String>,
    pub remap_policy: Option<RemapPolicy>,
}

/// A [`ShareConfig`] as a mathematical value.
#[verifier::ext_equal]
pub struct ShareView {
    pub share_id: Chars,
    pub name: Chars,
    pub root: Chars,
    pub binding_revision: u64,
    pub mode: SyncMode,
    pub enabled: bool,
    pub legacy_ignore: Chars,
    pub request_id: Option<Chars>,
    pub remap_policy: Option<RemapPolicy>,
}

impl View for ShareConfig {
    type V = ShareView;

    open spec fn view(&self) -> ShareView {
        ShareView {
            share_id: self.share_id@,
            name: self.name@,
            root: self.root@,
            binding_revision: self.binding_revision,
            mode: self.mode,
            enabled: self.enabled,
            legacy_ignore: self.legacy_ignore@,
            request_id: owned_text(self.request_id),
            remap_policy: self.remap_policy,
        }
    }
}

impl Duplicate for ShareConfig {
    fn duplicate(&self) -> (r: Self) {
        ShareConfig {
            share_id: self.share_id.clone(),
            name: self.name.clone(),
            root: self.root.clone(),
            binding_revision: self.binding_revision,
            mode: self.mode,
            enabled: self.enabled,
            legacy_ignore: self.legacy_ignore.clone(),
            request_id: copy_text(&self.request_id),
            remap_policy: self.remap_policy,
        }
    }
}

/// What the phone is told of a Share; the PC's folder stays on the PC.
#[derive(Clone, Debug, PartialEq, Eq)]
pub struct ShareDefinition {
    pub share_id: String,
    pub name: String,
    pub mode: SyncMode,
    pub enabled: bool,
    pub binding_revision: u64,
    pub ignore_rules: String,
    pub request_id: Option<String>,
    pub remap_policy: Option<RemapPolicy>,
}

/// A [`ShareDefinition`] as a mathematical value.
#[verifier::ext_equal]
pub struct DefinitionView {
    pub share_id: Chars,
    pub name: Chars,
    pub mode: SyncMode,
    pub enabled: bool,
    pub binding_revision: u64,
    pub ignore_rules: Chars,
    pub request_id: Option<Chars>,
    pub remap_policy: Option<RemapPolicy>,
}

impl View for ShareDefinition {
    type V = DefinitionView;

    open spec fn view(&self) -> DefinitionView {
        DefinitionView {
            share_id: self.share_id@,
            name: self.name@,
            mode: self.mode,
            enabled: self.enabled,
            binding_revision: self.binding_revision,
            ignore_rules: self.ignore_rules@,
            request_id: owned_text(self.request_id),
            remap_policy: self.remap_policy,
        }
    }
}

impl Duplicate for ShareDefinition {
    fn duplicate(&self) -> (r: Self) {
        ShareDefinition {
            share_id: self.share_id.clone(),
            name: self.name.clone(),
            mode: self.mode,
            enabled: self.enabled,
            binding_revision: self.binding_revision,
            ignore_rules: self.ignore_rules.clone(),
            request_id: copy_text(&self.request_id),
            remap_policy: self.remap_policy,
        }
    }
}

/// The phone's wish for a Share.
#[derive(Clone, Debug, PartialEq, Eq)]
pub struct ShareRequest {
    pub request_id: String,
    pub name: String,
    pub mode: SyncMode,
}

/// A [`ShareRequest`] as a mathematical value.
#[verifier::ext_equal]
pub struct RequestView {
    pub request_id: Chars,
    pub name: Chars,
    pub mode: SyncMode,
}

impl View for ShareRequest {
    type V = RequestView;

    open spec fn view(&self) -> RequestView {
        RequestView { request_id: self.request_id@, name: self.name@, mode: self.mode }
    }
}

impl Duplicate for ShareRequest {
    fn duplicate(&self) -> (r: Self) {
        ShareRequest {
            request_id: self.request_id.clone(),
            name: self.name.clone(),
            mode: self.mode,
        }
    }
}

/// The mathematical values of a list.
pub open spec fn seen<T: View>(v: Seq<T>) -> Seq<T::V> {
    v.map_values(|x: T| x@)
}

/// Pushing a value pushes its mathematical value.
pub proof fn lemma_seen_push<T: View>(v: Seq<T>, x: T)
    ensures
        seen(v.push(x)) == seen(v).push(x@),
{
    assert(seen(v.push(x)) =~= seen(v).push(x@));
}

/// Copies a list.
pub fn copy_list<T: Duplicate>(v: &Vec<T>) -> (r: Vec<T>)
    ensures
        seen(r@) == seen(v@),
{
    let mut r: Vec<T> = Vec::new();
    let mut i: usize = 0;
    assert(seen(r@) =~= seen(v@).take(0));
    while i < v.len()
        invariant
            i <= v@.len(),
            seen(r@) == seen(v@).take(i as int),
        decreases v@.len() - i,
    {
        let x = v[i].duplicate();
        proof {
            lemma_seen_push(r@, x);
            assert(seen(v@).take(i + 1) =~= seen(v@).take(i as int).push(seen(v@)[i as int]));
        }
        r.push(x);
        i = i + 1;
    }
    assert(seen(v@).take(i as int) =~= seen(v@));
    r
}

} // verus!
