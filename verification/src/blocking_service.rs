//! The queue service's request handlers, run by a single owner.
//!
//! Every request kind maps to one [`Queues`] operation; an unverified
//! worker loop owns one value of this type and feeds it requests from a
//! command channel, one at a time.

use vstd::prelude::*;

use crate::errors::PushApiError;
use crate::position::Position;
use crate::queue::{
    concat_of, fetch_select, id_bytes_of, lens_of, match_entries, tail_select, wm_update,
    wm_views, FetchRequest, FetchResponse, IngestRequest, IngestResponse, Queues,
    SuggestTruncateRequest, SuggestTruncateResponse, TailRequest, FETCH_PAYLOAD_LIMIT,
};
use crate::segment_writer::dir_view;
use crate::writer::files_framed;

verus! {

/// Handles queue requests over one [`Queues`] value.
pub struct PushAPIServiceBlockingImpl {
    /// The queues all requests go to.
    pub queues: Queues,
}

impl PushAPIServiceBlockingImpl {
    /// The underlying queues are in step with their log.
    pub open spec fn inv(&self) -> bool {
        self.queues.inv()
    }

    /// Wraps a queues value.
    pub fn with_queues(queues: Queues) -> (r: PushAPIServiceBlockingImpl)
        ensures
            r.queues == queues,
    {
        PushAPIServiceBlockingImpl { queues }
    }

    /// Appends every batch of the request to the log and flushes.
    pub fn ingest(&mut self, request: IngestRequest) -> (r: Result<IngestResponse, PushApiError>)
        requires
            old(self).inv(),
        ensures
            final(self).inv(),
            r is Ok ==> crate::writer::all_data(dir_view(final(self).queues.dir))
                == crate::writer::all_data(dir_view(old(self).queues.dir))
                + crate::queue::ingest_frames(request.doc_batches@),
            r is Err ==> *final(self) == *old(self),
            r is Ok <==> (crate::queue::batches_valid(request.doc_batches@) && old(
                self,
            ).queues.writer.spec_current_offset() + crate::queue::ingest_len(
                request.doc_batches@,
            ) <= u64::MAX),
    {
        match self.queues.ingest(request) {
            Ok(resp) => Ok(resp),
            Err(e) => Err(e),
        }
    }

    /// Returns the records of the request's index after its position.
    pub fn fetch(&mut self, request: FetchRequest) -> (r: Result<FetchResponse, PushApiError>)
        requires
            old(self).inv(),
        ensures
            *final(self) == *old(self),
            match r {
                Ok(resp) => {
                    let sel = fetch_select(
                        old(self).queues.spec_entries(),
                        id_bytes_of(request.index_id@),
                        request.start_after,
                        FETCH_PAYLOAD_LIMIT as int,
                    );
                    &&& sel.len() > 0 ==> ({
                        &&& resp.first_position == Some(sel[0].0 as u64)
                        &&& resp.doc_batch matches Some(b) && b.index_id@ == request.index_id@
                            && b.concat_docs@ == concat_of(sel) && b.doc_lens@ == lens_of(sel)
                    })
                    &&& sel.len() == 0 ==> resp.first_position is None && resp.doc_batch is None
                },
                Err(_) => !files_framed(dir_view(old(self).queues.dir)),
            },
    {
        self.queues.fetch(request.index_id.as_str(), request.start_after)
    }

    /// Returns the most recent records of the request's index.
    pub fn tail(&mut self, request: TailRequest) -> (r: Result<FetchResponse, PushApiError>)
        requires
            old(self).inv(),
        ensures
            *final(self) == *old(self),
            match r {
                Ok(resp) => {
                    let sel = tail_select(
                        match_entries(
                            old(self).queues.spec_entries(),
                            id_bytes_of(request.index_id@),
                        ),
                        FETCH_PAYLOAD_LIMIT as int,
                    );
                    &&& sel.len() > 0 ==> ({
                        &&& resp.first_position == Some(sel[0].0 as u64)
                        &&& resp.doc_batch matches Some(b) && b.index_id@ == request.index_id@
                            && b.concat_docs@ == concat_of(sel) && b.doc_lens@ == lens_of(sel)
                    })
                    &&& sel.len() == 0 ==> resp.first_position is None && resp.doc_batch is None
                },
                Err(_) => !files_framed(dir_view(old(self).queues.dir)),
            },
    {
        self.queues.tail(request.index_id.as_str())
    }

    /// Records the request's watermark and reclaims sealed segments
    /// wholly consumed by every queue. The response is always success;
    /// truncation is best effort.
    pub fn suggest_truncate(&mut self, request: SuggestTruncateRequest) -> (r: Result<
        SuggestTruncateResponse,
        PushApiError,
    >)
        requires
            old(self).inv(),
        ensures
            r is Ok,
            final(self).inv(),
            wm_views(final(self).queues.watermarks@) == wm_update(
                wm_views(old(self).queues.watermarks@),
                id_bytes_of(request.index_id@),
                Position::Offset(request.up_to_position_included),
            ),
            !crate::queue::wm_all_offsets(wm_views(final(self).queues.watermarks@)) ==> ({
                final(self).queues.dir.files@ == old(self).queues.dir.files@
            }),
            crate::queue::wm_all_offsets(wm_views(final(self).queues.watermarks@)) ==> ({
                let m = crate::queue::wm_min(wm_views(final(self).queues.watermarks@));
                final(self).queues.dir.files@ == crate::directory::truncated_files(
                    old(self).queues.dir.files@,
                    m as u64,
                )
            }),
    {
        match self.queues.suggest_truncate(
            request.index_id.as_str(),
            Position::Offset(request.up_to_position_included),
        ) {
            Ok(_) => Ok(SuggestTruncateResponse {}),
            Err(e) => Err(e),
        }
    }
}

} // verus!
