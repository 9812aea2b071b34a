//! The library's facade: key extraction and record resolution.
//!
//! Resolution classifies a key and delegates to the matching fetch
//! capability, which the caller supplies; a key no grammar accepts causes
//! no fetch at all and resolves to nothing.

use vstd::prelude::*;

use crate::classify::classified;
use crate::classify::BibCode;
use crate::classify::RecId;
use crate::classify::Sources;
use crate::extract::extract_aux_keys;
use crate::extract::extract_log_keys;
use crate::extract::is_aux_key;
use crate::extract::is_log_key;
use crate::keyset::has_key;
use crate::keyset::strictly_sorted_keys;

verus! {

/// One fetch capability per source database: given a validated key, each
/// returns the record's interchange-format text, or nothing when the
/// record cannot be retrieved for any reason.
pub trait RecordFetcher {
    /// Fetches the record behind an INSPIRE identifier.
    fn fetch_inspire(&mut self, key: &RecId<'_>) -> Option<String>
        requires
            key.wf(),
    ;

    /// Fetches the record behind an ADS bibcode.
    fn fetch_ads(&mut self, key: &BibCode<'_>) -> Option<String>
        requires
            key.wf(),
    ;
}

/// The extraction and resolution engine.
pub struct Inspirer {}

impl Inspirer {
    /// Sets the engine up.
    pub fn init() -> (r: Inspirer)
        ensures
            r == (Inspirer {}),
    {
        Inspirer {}
    }

    /// Extracts the citation keys of an auxiliary file's text: exactly the
    /// keys its citation markers carry, sorted and deduplicated.
    pub fn aux2key(&self, input_data: String) -> (keys: Vec<String>)
        ensures
            strictly_sorted_keys(keys@),
            forall|x: Seq<char>| #[trigger] has_key(keys@, x) <==> is_aux_key(input_data@, x),
    {
        extract_aux_keys(input_data.as_str())
    }

    /// Extracts the missing-entry keys of a bibliography log's text:
    /// exactly the keys its warning lines quote, sorted and deduplicated.
    pub fn blg2key(&self, input_data: String) -> (keys: Vec<String>)
        ensures
            strictly_sorted_keys(keys@),
            forall|x: Seq<char>| #[trigger] has_key(keys@, x) <==> is_log_key(input_data@, x),
    {
        extract_log_keys(input_data.as_str())
    }

    /// Resolves one key to its record text: classifies the key and
    /// delegates to the matching fetch capability, handing back its reply
    /// unchanged.  A key that no grammar accepts is skipped — the fetcher
    /// is left untouched — and resolves to nothing.
    pub fn bibtex<F: RecordFetcher>(&self, fetcher: &mut F, key: &str) -> (r: Option<String>)
        ensures
            classified(key) is Unclassified ==> r is None && *final(fetcher) == *old(fetcher),
            classified(key) matches Sources::Inspire(k) ==> exists|f2: &mut F|
                mut_ref_current(f2) == *old(fetcher) && mut_ref_future(f2) == *final(fetcher)
                    && #[trigger] call_ensures(F::fetch_inspire, (f2, &k), r),
            classified(key) matches Sources::Ads(k) ==> exists|f2: &mut F|
                mut_ref_current(f2) == *old(fetcher) && mut_ref_future(f2) == *final(fetcher)
                    && #[trigger] call_ensures(F::fetch_ads, (f2, &k), r),
    {
        match Sources::from(key) {
            Sources::Inspire(k) => fetcher.fetch_inspire(&k),
            Sources::Ads(k) => fetcher.fetch_ads(&k),
            _ => None,
        }
    }
}

} // verus!
