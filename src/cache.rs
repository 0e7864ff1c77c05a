//! Memoized plugin classifications, keyed by name and modification time.
use vstd::prelude::*;
use crate::plugin::{classify, InvalidReason, PluginKind};
use crate::profile::GameProfile;

verus! {

/// One remembered classification.
#[derive(Debug)]
pub struct CacheEntry {
    pub name: String,
    pub mtime: i64,
    pub result: Result<PluginKind, InvalidReason>,
}

/// What the entries say of `n`: its latest stored time and result.
pub open spec fn lookup_in(entries: Seq<CacheEntry>, n: Seq<char>) -> Option<(i64, Result<PluginKind, InvalidReason>)>
    decreases entries.len(),
{
    if entries.len() == 0 {
        None
    } else if entries.last().name@ == n {
        Some((entries.last().mtime, entries.last().result))
    } else {
        lookup_in(entries.drop_last(), n)
    }
}

/// A handle's cache of classifications.
#[derive(Debug)]
pub struct Cache {
    entries: Vec<CacheEntry>,
}

impl Cache {
    pub closed spec fn lookup(&self, n: Seq<char>) -> Option<(i64, Result<PluginKind, InvalidReason>)> {
        lookup_in(self.entries@, n)
    }

    pub fn new() -> (r: Self)
        ensures
            forall|n: Seq<char>| #[trigger] r.lookup(n) is None,
    {
        Cache { entries: Vec::new() }
    }

    /// The stored result for `name`, when it was stored for the time `mtime`.
    pub fn get(&self, name: &String, mtime: i64) -> (r: Option<Result<PluginKind, InvalidReason>>)
        ensures
            r == match self.lookup(name@) {
                Some((t, res)) => if t == mtime { Some(res) } else { None },
                None => None,
            },
    {
        let mut i: usize = self.entries.len();
        assert(self.entries@.subrange(0, i as int) =~= self.entries@);
        while i > 0
            invariant
                i <= self.entries@.len(),
                lookup_in(self.entries@, name@) == lookup_in(self.entries@.subrange(0, i as int), name@),
            decreases i,
        {
            let ghost pre = self.entries@.subrange(0, i as int);
            assert(pre.drop_last() =~= self.entries@.subrange(0, i - 1));
            if self.entries[i - 1].name == *name {
                if self.entries[i - 1].mtime == mtime {
                    return Some(self.entries[i - 1].result);
                } else {
                    return None;
                }
            }
            i = i - 1;
        }
        None
    }

    /// Remembers `result` for `name` at the time `mtime`.
    pub fn store(&mut self, name: String, mtime: i64, result: Result<PluginKind, InvalidReason>)
        ensures
            final(self).lookup(name@) == Some((mtime, result)),
            forall|n: Seq<char>| n != name@ ==> #[trigger] final(self).lookup(n) == old(self).lookup(n),
    {
        let ghost before = self.entries@;
        self.entries.push(CacheEntry { name, mtime, result });
        assert(self.entries@.drop_last() =~= before);
    }

    /// Forgets every entry.
    pub fn invalidate_all(&mut self)
        ensures
            forall|n: Seq<char>| #[trigger] final(self).lookup(n) is None,
    {
        self.entries = Vec::new();
    }

    /// The classification of `name` at the time `mtime`: the stored one when
    /// it was stored for that time, else a fresh one from the file's prefix
    /// `bytes`, which is then stored.
    pub fn get_or_classify(
        &mut self,
        profile: &GameProfile,
        name: &String,
        mtime: i64,
        bytes: &Vec<u8>,
        file_size: u64,
    ) -> (r: Result<PluginKind, InvalidReason>)
        ensures
            final(self).lookup(name@) == Some((mtime, r)),
            forall|n: Seq<char>| n != name@ ==> #[trigger] final(self).lookup(n) == old(self).lookup(n),
            r == match old(self).lookup(name@) {
                Some((t, res)) => if t == mtime { res } else { classify_result(profile, name@, bytes@, file_size) },
                None => classify_result(profile, name@, bytes@, file_size),
            },
    {
        match self.get(name, mtime) {
            Some(res) => {
                res
            },
            None => {
                let res = classify(profile, name.as_str(), bytes, file_size);
                self.store(name.clone(), mtime, res);
                res
            },
        }
    }
}

/// What `classify` gives for a plugin.
pub open spec fn classify_result(profile: &GameProfile, name: Seq<char>, bytes: Seq<u8>, file_size: u64) -> Result<PluginKind, InvalidReason> {
    if !crate::plugin::valid_extension(name, profile.supports_light) {
        Err(InvalidReason::Extension)
    } else {
        crate::plugin::classify_spec(profile.game, profile.supports_light, bytes, file_size as int)
    }
}

} // verus!
