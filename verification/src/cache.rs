//! Coherency rule of the single-slot highlight cache.
//!
//! Styled spans are expensive to recompute, so the rendering layer keeps
//! the spans of exactly one file, keyed by the file's path identity, the
//! state machine's invalidation epoch, the row-buffer version, and the row
//! count. The decision of when the memoized spans may be reused is the
//! logic verified here; the spans themselves live with the renderer.

use vstd::prelude::*;

verus! {

/// The key under which one file's styled spans are memoized.
pub struct HighlightKey {
    pub path: String,
    pub epoch: u64,
    pub rows_version: u64,
    pub rows_len: usize,
}

/// Mathematical view of `HighlightKey`.
#[verifier::ext_equal]
pub ghost struct HighlightKeyV {
    pub path: Seq<char>,
    pub epoch: u64,
    pub rows_version: u64,
    pub rows_len: usize,
}

pub open spec fn key_view(k: HighlightKey) -> HighlightKeyV {
    HighlightKeyV {
        path: k.path@,
        epoch: k.epoch,
        rows_version: k.rows_version,
        rows_len: k.rows_len,
    }
}

/// The single cache slot: the key of the entry currently memoized, if any.
pub struct HighlightCache {
    pub key: Option<HighlightKey>,
}

pub open spec fn cache_view(c: HighlightCache) -> Option<HighlightKeyV> {
    match c.key {
        Option::Some(k) => Option::Some(key_view(k)),
        Option::None => Option::None,
    }
}

/// Whether a memoized entry under `held` may stand in for a request under
/// `asked`: only an entry under exactly the same key.
pub open spec fn key_matches(held: Option<HighlightKeyV>, asked: HighlightKeyV) -> bool {
    match held {
        Option::Some(k) => k == asked,
        Option::None => false,
    }
}

impl HighlightCache {
    /// An empty cache slot.
    pub fn new() -> (c: HighlightCache)
        ensures
            cache_view(c) is None,
    {
        HighlightCache { key: Option::None }
    }

    /// Decides whether the memoized spans must be recomputed for the given
    /// key, and records that key as the one now held: a miss on an empty
    /// slot or on any component differing — file identity, epoch,
    /// row-buffer version, or row count — and a hit only on all four equal.
    pub fn check_and_update(
        &mut self,
        path: &String,
        epoch: u64,
        rows_version: u64,
        rows_len: usize,
    ) -> (miss: bool)
        ensures
            miss == !key_matches(
                cache_view(*old(self)),
                HighlightKeyV { path: path@, epoch, rows_version, rows_len },
            ),
            cache_view(*final(self)) == Option::Some(
                HighlightKeyV { path: path@, epoch, rows_version, rows_len },
            ),
    {
        let miss = match &self.key {
            Option::Some(k) => {
                let hit = k.epoch == epoch && k.rows_version == rows_version && k.rows_len
                    == rows_len && k.path == *path;
                proof {
                    if hit {
                        assert(key_view(self.key->Some_0) =~= HighlightKeyV {
                            path: path@,
                            epoch,
                            rows_version,
                            rows_len,
                        });
                    }
                }
                !hit
            },
            Option::None => true,
        };
        self.key = Option::Some(
            HighlightKey { path: path.clone(), epoch, rows_version, rows_len },
        );
        proof {
            assert(key_view(self.key->Some_0) =~= HighlightKeyV {
                path: path@,
                epoch,
                rows_version,
                rows_len,
            });
        }
        miss
    }
}

} // verus!
