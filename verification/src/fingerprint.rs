//! Fingerprints of critical paths.

use vstd::prelude::*;
use crate::critical::CriticalPath;
use crate::digest::{no_bytes, sha256_hex_digest, DIGEST_LIMIT, Fingerprinter};
use crate::event::TracepointID;
use crate::registry::TracepointRegistry;

verus! {

/// The UTF-8 bytes of `names`, one name after the other.
pub open spec fn joined_names(names: Seq<Seq<char>>) -> Seq<u8>
    decreases names.len(),
{
    if names.len() == 0 {
        no_bytes()
    } else {
        joined_names(names.drop_last()) + vstd::utf8::encode_utf8(names.last())
    }
}

/// The first names of a list take no more bytes than all of them.
pub proof fn lemma_joined_grows(names: Seq<Seq<char>>, k: int)
    requires
        0 <= k <= names.len(),
    ensures
        joined_names(names.take(k)).len() <= joined_names(names).len(),
    decreases names.len() - k,
{
    if k < names.len() {
        lemma_joined_grows(names, k + 1);
        assert(names.take(k + 1).drop_last() =~= names.take(k));
    } else {
        assert(names.take(k) =~= names);
    }
}

impl CriticalPath {
    /// The tracepoints of the events from first to last.
    pub open spec fn tracepoints(&self) -> Seq<TracepointID> {
        Seq::new(self.order().len(), |i: int| self.events()[i].tracepoint_id)
    }

    /// The names of the tracepoints from first to last, as `registry`
    /// knows them.
    pub open spec fn names(&self, registry: TracepointRegistry) -> Seq<Seq<char>> {
        Seq::new(self.order().len(), |i: int| registry.name_of(self.tracepoints()[i]))
    }

    /// Whether `registry` handed out every tracepoint id on the path.
    pub open spec fn all_known(&self, registry: TracepointRegistry) -> bool {
        forall|i: int| 0 <= i < self.order().len() ==> registry.knows(#[trigger] self.tracepoints()[i])
    }

    /// The fingerprint of the path's shape: the SHA-256 digest, in
    /// hexadecimal, of the names of its tracepoints written one after the
    /// other. There is none where the registry does not know a tracepoint
    /// or the names are too long for the digest.
    pub open spec fn fingerprint(&self, registry: TracepointRegistry) -> Option<Seq<char>> {
        if self.all_known(registry) && joined_names(self.names(registry)).len() < DIGEST_LIMIT {
            Some(sha256_hex_digest(joined_names(self.names(registry))))
        } else {
            None
        }
    }

    /// Computes the fingerprint of the path. Timestamps and durations play
    /// no part in it.
    pub fn calculate_hash(&self, registry: &TracepointRegistry) -> (hash: Option<String>)
        requires
            self.wf(),
            registry.wf(),
        ensures
            match hash {
                Some(h) => self.fingerprint(*registry) == Some(h@),
                None => self.fingerprint(*registry) is None,
            },
    {
        let events = self.events_in_order();
        let mut printer = Fingerprinter::new();
        let ghost names = self.names(*registry);
        let mut i: usize = 0;
        while i < events.len()
            invariant
                registry.wf(),
                printer.wf(),
                events@ == self.events(),
                names == self.names(*registry),
                0 <= i <= events@.len(),
                events@.len() == self.order().len(),
                printer.bytes() == joined_names(names.take(i as int)),
                forall|j: int| 0 <= j < i ==> registry.knows(#[trigger] self.tracepoints()[j]),
            decreases events@.len() - i,
        {
            proof {
                assert(self.tracepoints()[i as int] == events@[i as int].tracepoint_id);
                assert(names.take(i + 1).drop_last() =~= names.take(i as int));
                assert(names.take(i + 1).last() == names[i as int]);
                lemma_joined_grows(names, i + 1);
            }
            match registry.lookup(events[i].tracepoint_id) {
                Some(name) => {
                    if !printer.feed(name.as_str()) {
                        return None;
                    }
                },
                None => {
                    return None;
                },
            }
            i += 1;
        }
        proof {
            assert(names.take(i as int) =~= names);
        }
        Some(printer.finish())
    }

    /// The fingerprint of the path, computed at the first call and kept:
    /// later calls return what is kept.
    pub fn hash(&mut self, registry: &TracepointRegistry) -> (hash: Option<String>)
        requires
            old(self).wf(),
            registry.wf(),
        ensures
            final(self).wf(),
            final(self).g == old(self).g,
            final(self).chain == old(self).chain,
            final(self).start_node == old(self).start_node,
            final(self).end_node == old(self).end_node,
            final(self).duration == old(self).duration,
            final(self).is_hypothetical == old(self).is_hypothetical,
            final(self).hash == hash,
            match old(self).hash {
                Some(kept) => hash == Some(kept),
                None => match hash {
                    Some(h) => old(self).fingerprint(*registry) == Some(h@),
                    None => old(self).fingerprint(*registry) is None,
                },
            },
    {
        let kept = match &self.hash {
            Some(kept) => Some(kept.clone()),
            None => None,
        };
        match kept {
            Some(kept) => Some(kept),
            None => {
                let fresh = self.calculate_hash(registry);
                self.hash = match &fresh {
                    Some(h) => Some(h.clone()),
                    None => None,
                };
                fresh
            },
        }
    }

    /// Two paths with the same tracepoints in the same order have the same
    /// fingerprint, whatever their timestamps and durations are.
    pub proof fn lemma_fingerprint_of_shape(self, other: CriticalPath, registry: TracepointRegistry)
        requires
            self.tracepoints() == other.tracepoints(),
        ensures
            self.fingerprint(registry) == other.fingerprint(registry),
    {
        assert(self.order().len() == self.tracepoints().len());
        assert(other.order().len() == other.tracepoints().len());
        assert(self.names(registry) =~= other.names(registry));
    }
}

} // verus!
