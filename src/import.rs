//! The per-pack import pipeline: the upload decision of each sticker, the
//! reduction of per-sticker outcomes into an ordered result, and the records
//! that the fingerprint store gains afterwards.
use vstd::prelude::*;
use crate::normalize::{extension, fingerprint, mime_prefix, mimetype_of, sha512_of, NormalizeError, NormalizedPayload};
use crate::store::{FingerprintStore, StoreRecord};
use crate::tg;

verus! {

/// Why one sticker could not be imported.
#[derive(Clone, Debug)]
pub enum ImportError {
    /// The sticker's bytes could not be fetched.
    Fetch(String),
    /// The payload could not be normalized.
    Normalize(NormalizeError),
    /// The normalized payload could not be saved locally.
    Save(String),
    /// The upload to the destination failed.
    Upload(String),
}

/// One imported sticker, as the destination pack lists it.
#[derive(Clone, Debug)]
pub struct Sticker {
    pub file_hash: Vec<u8>,
    pub mxc_url: String,
    pub file_id: String,
    pub emoji: String,
    pub width: u32,
    pub height: u32,
    pub file_size: usize,
    pub mimetype: String,
    /// Position of the sticker in its source pack.
    pub position: usize,
    /// The reference came from the fingerprint store, no upload was made.
    pub deduplicated: bool,
}

/// A sticker whose content is not yet known to the destination: everything of
/// its record but the reference that the upload returns.
#[derive(Clone, Debug)]
pub struct PendingUpload {
    pub file_hash: Vec<u8>,
    pub file_id: String,
    pub emoji: String,
    pub width: u32,
    pub height: u32,
    pub file_size: usize,
    pub mimetype: String,
    pub position: usize,
}

/// What to do with a normalized sticker.
#[derive(Clone, Debug)]
pub enum UploadStep {
    /// Uploads are disabled: the sticker yields no record.
    Skip,
    /// The content is already uploaded: the record is complete.
    Reuse(Sticker),
    /// The payload must be uploaded with the pending record's mimetype.
    Upload(PendingUpload),
}

/// The result of processing one sticker.
#[derive(Clone, Debug)]
pub enum StickerOutcome {
    Imported(Sticker),
    /// Produced no record and no error (uploads disabled, or never started).
    Excluded,
    Failed(ImportError),
}

/// The reference that the store already holds for this content, if any.
pub open spec fn known_reference(store: Map<Seq<u8>, Seq<char>>, data: Seq<u8>) -> Option<Seq<char>> {
    if store.contains_key(sha512_of(data)) {
        Some(store[sha512_of(data)])
    } else {
        None
    }
}

/// The fields of a record that the source sticker and the payload determine.
pub open spec fn describes(
    file_hash: Seq<u8>,
    file_id: Seq<char>,
    emoji: Seq<char>,
    width: u32,
    height: u32,
    file_size: usize,
    mimetype: Seq<char>,
    position: usize,
    s: tg::Sticker,
    p: NormalizedPayload,
) -> bool {
    &&& file_hash == sha512_of(p.data@)
    &&& file_id == s.file_id@
    &&& emoji == s.emoji@
    &&& width == p.width
    &&& height == p.height
    &&& file_size == p.data@.len()
    &&& extension(p.path@) matches Some(ext) && mimetype == mime_prefix() + ext
    &&& position == s.position
}

pub open spec fn record_describes(r: Sticker, s: tg::Sticker, p: NormalizedPayload) -> bool {
    describes(r.file_hash@, r.file_id@, r.emoji@, r.width, r.height, r.file_size, r.mimetype@,
        r.position, s, p)
}

pub open spec fn pending_describes(r: PendingUpload, s: tg::Sticker, p: NormalizedPayload) -> bool {
    describes(r.file_hash@, r.file_id@, r.emoji@, r.width, r.height, r.file_size, r.mimetype@,
        r.position, s, p)
}

/// Decide, for a normalized sticker, whether it yields no record, reuses a
/// stored reference, or must be uploaded.
pub fn prepare_upload(
    store: &FingerprintStore,
    sticker: &tg::Sticker,
    payload: &NormalizedPayload,
    upload_enabled: bool,
) -> (r: Result<UploadStep, ImportError>)
    ensures
        !upload_enabled ==> r matches Ok(UploadStep::Skip),
        upload_enabled && extension(payload.path@) is None ==> r matches Err(
            ImportError::Normalize(NormalizeError::Mimetype),
        ),
        upload_enabled && extension(payload.path@) is Some ==> match known_reference(
            store@,
            payload.data@,
        ) {
            Some(url) => r matches Ok(UploadStep::Reuse(rec)) && record_describes(
                rec,
                *sticker,
                *payload,
            ) && rec.mxc_url@ == url && rec.deduplicated,
            None => r matches Ok(UploadStep::Upload(pending)) && pending_describes(
                pending,
                *sticker,
                *payload,
            ),
        },
{
    if !upload_enabled {
        return Ok(UploadStep::Skip);
    }
    let file_hash = fingerprint(&payload.data);
    let mimetype = match mimetype_of(payload.path.as_str()) {
        Ok(m) => m,
        Err(e) => {
            return Err(ImportError::Normalize(e));
        },
    };
    match store.lookup(&file_hash) {
        Some(url) => Ok(
            UploadStep::Reuse(
                Sticker {
                    file_hash,
                    mxc_url: url,
                    file_id: sticker.file_id.clone(),
                    emoji: sticker.emoji.clone(),
                    width: payload.width,
                    height: payload.height,
                    file_size: payload.data.len(),
                    mimetype,
                    position: sticker.position,
                    deduplicated: true,
                },
            ),
        ),
        None => Ok(
            UploadStep::Upload(
                PendingUpload {
                    file_hash,
                    file_id: sticker.file_id.clone(),
                    emoji: sticker.emoji.clone(),
                    width: payload.width,
                    height: payload.height,
                    file_size: payload.data.len(),
                    mimetype,
                    position: sticker.position,
                },
            ),
        ),
    }
}

impl PendingUpload {
    /// The complete record once the upload returned `reference`.
    pub fn into_sticker(self, reference: String) -> (r: Sticker)
        ensures
            r.file_hash@ == self.file_hash@,
            r.file_id@ == self.file_id@,
            r.emoji@ == self.emoji@,
            r.width == self.width,
            r.height == self.height,
            r.file_size == self.file_size,
            r.mimetype@ == self.mimetype@,
            r.position == self.position,
            r.mxc_url@ == reference@,
            !r.deduplicated,
    {
        Sticker {
            file_hash: self.file_hash,
            mxc_url: reference,
            file_id: self.file_id,
            emoji: self.emoji,
            width: self.width,
            height: self.height,
            file_size: self.file_size,
            mimetype: self.mimetype,
            position: self.position,
            deduplicated: false,
        }
    }
}

/// The records of the imported stickers, in position order.
pub open spec fn imported(o: Seq<StickerOutcome>) -> Seq<Sticker>
    decreases o.len(),
{
    if o.len() == 0 {
        Seq::empty()
    } else {
        let rest = imported(o.drop_last());
        match o.last() {
            StickerOutcome::Imported(rec) => rest.push(rec),
            _ => rest,
        }
    }
}

/// The (position, error) pairs of the failed stickers, in position order.
pub open spec fn failed(o: Seq<StickerOutcome>) -> Seq<(usize, ImportError)>
    decreases o.len(),
{
    if o.len() == 0 {
        Seq::empty()
    } else {
        let rest = failed(o.drop_last());
        match o.last() {
            StickerOutcome::Failed(e) => rest.push(((o.len() - 1) as usize, e)),
            _ => rest,
        }
    }
}

/// The positions of the outcomes that satisfy `f`, in increasing order.
pub open spec fn positions_where(o: Seq<StickerOutcome>, f: spec_fn(StickerOutcome) -> bool) -> Seq<int>
    decreases o.len(),
{
    if o.len() == 0 {
        Seq::empty()
    } else {
        let rest = positions_where(o.drop_last(), f);
        if f(o.last()) {
            rest.push(o.len() - 1)
        } else {
            rest
        }
    }
}

pub open spec fn is_imported(x: StickerOutcome) -> bool {
    x is Imported
}

pub open spec fn is_failed(x: StickerOutcome) -> bool {
    x is Failed
}

/// The positions of the imported stickers.
pub open spec fn imported_positions(o: Seq<StickerOutcome>) -> Seq<int> {
    positions_where(o, |x: StickerOutcome| is_imported(x))
}

/// The positions of the failed stickers.
pub open spec fn failed_positions(o: Seq<StickerOutcome>) -> Seq<int> {
    positions_where(o, |x: StickerOutcome| is_failed(x))
}

/// `positions_where` lists exactly the positions that satisfy `f`, each once,
/// in increasing order.
pub proof fn lemma_positions_where(o: Seq<StickerOutcome>, f: spec_fn(StickerOutcome) -> bool)
    ensures
        forall|k: int|
            0 <= k < positions_where(o, f).len() ==> 0 <= #[trigger] positions_where(o, f)[k]
                < o.len() && f(o[positions_where(o, f)[k]]),
        forall|a: int, b: int|
            0 <= a < b < positions_where(o, f).len() ==> #[trigger] positions_where(o, f)[a]
                < #[trigger] positions_where(o, f)[b],
        forall|i: int| 0 <= i < o.len() && f(o[i]) ==> #[trigger] positions_where(o, f).contains(i),
        forall|i: int| #[trigger] positions_where(o, f).contains(i) ==> 0 <= i < o.len() && f(o[i]),
    decreases o.len(),
{
    if o.len() > 0 {
        let d = o.drop_last();
        lemma_positions_where(d, f);
        let p = positions_where(o, f);
        let q = positions_where(d, f);
        assert forall|i: int| 0 <= i < o.len() && f(o[i]) implies #[trigger] p.contains(i) by {
            if i < o.len() - 1 {
                assert(d[i] == o[i]);
                assert(q.contains(i));
                let k = choose|k: int| 0 <= k < q.len() && q[k] == i;
                assert(p[k] == i);
            } else {
                assert(p[p.len() - 1] == i);
            }
        }
        assert forall|i: int| #[trigger] p.contains(i) implies 0 <= i < o.len() && f(o[i]) by {
            let k = choose|k: int| 0 <= k < p.len() && p[k] == i;
            if k < q.len() {
                assert(q[k] == i);
                assert(q.contains(i));
                assert(d[i] == o[i]);
            }
        }
    }
}

/// `imported` holds the records at the imported positions, `failed` the errors
/// at the failed positions.
pub proof fn lemma_outcome_lists(o: Seq<StickerOutcome>)
    requires
        o.len() <= usize::MAX,
    ensures
        imported(o).len() == imported_positions(o).len(),
        forall|k: int|
            0 <= k < imported(o).len() ==> o[imported_positions(o)[k]] == StickerOutcome::Imported(
                #[trigger] imported(o)[k],
            ),
        failed(o).len() == failed_positions(o).len(),
        forall|k: int|
            0 <= k < failed(o).len() ==> #[trigger] failed(o)[k].0 as int == failed_positions(o)[k]
                && o[failed_positions(o)[k]] == StickerOutcome::Failed(failed(o)[k].1),
    decreases o.len(),
{
    let fi = |x: StickerOutcome| is_imported(x);
    let ff = |x: StickerOutcome| is_failed(x);
    lemma_positions_where(o, fi);
    lemma_positions_where(o, ff);
    if o.len() > 0 {
        let d = o.drop_last();
        lemma_outcome_lists(d);
        lemma_positions_where(d, fi);
        lemma_positions_where(d, ff);
        assert(imported_positions(o) == positions_where(o, fi));
        assert(imported_positions(d) == positions_where(d, fi));
        assert(failed_positions(o) == positions_where(o, ff));
        assert(failed_positions(d) == positions_where(d, ff));
        let last = o.last();
        if last is Imported {
            assert(imported_positions(o) == imported_positions(d).push(o.len() - 1));
            assert(failed_positions(o) == failed_positions(d));
            assert(failed(o) == failed(d));
        } else if last is Failed {
            assert(imported_positions(o) == imported_positions(d));
            assert(failed_positions(o) == failed_positions(d).push(o.len() - 1));
            assert(failed(o) == failed(d).push(((o.len() - 1) as usize, last->Failed_0)));
        } else {
            assert(imported_positions(o) == imported_positions(d));
            assert(failed_positions(o) == failed_positions(d));
            assert(failed(o) == failed(d));
        }
        assert forall|k: int| 0 <= k < failed(o).len() implies #[trigger] failed(o)[k].0 as int
            == failed_positions(o)[k] && o[failed_positions(o)[k]] == StickerOutcome::Failed(
            failed(o)[k].1,
        ) by {
            if k == failed(d).len() {
                assert(failed_positions(o)[k] == o.len() - 1);
                assert(failed(o)[k] == ((o.len() - 1) as usize, last->Failed_0));
                assert(o[o.len() - 1] == last);
            } else {
                assert(failed(o)[k] == failed(d)[k]);
                assert(failed_positions(o)[k] == failed_positions(d)[k]);
                assert(d[failed_positions(d)[k]] == o[failed_positions(d)[k]]);
            }
        }
        assert forall|k: int| 0 <= k < imported(o).len() implies o[imported_positions(o)[k]]
            == StickerOutcome::Imported(#[trigger] imported(o)[k]) by {
            if k < imported(d).len() {
                assert(imported(o)[k] == imported(d)[k]);
                assert(imported_positions(o)[k] == imported_positions(d)[k]);
                assert(d[imported_positions(d)[k]] == o[imported_positions(d)[k]]);
            }
        }
    }
}

/// Every position whose outcome is not excluded appears in exactly one of the
/// success list and the failure list; an excluded one appears in neither.
/// Successes are listed in increasing position order.
pub proof fn lemma_each_position_once(o: Seq<StickerOutcome>)
    ensures
        forall|i: int|
            0 <= i < o.len() ==> (#[trigger] imported_positions(o).contains(i) <==> o[i] is Imported),
        forall|i: int| 0 <= i < o.len() ==> (#[trigger] failed_positions(o).contains(i) <==> o[i] is Failed),
        forall|i: int|
            0 <= i < o.len() && !(o[i] is Excluded) ==> (imported_positions(o).contains(i)
                != failed_positions(o).contains(i)),
        forall|i: int|
            0 <= i < o.len() && o[i] is Excluded ==> !imported_positions(o).contains(i)
                && !failed_positions(o).contains(i),
        forall|a: int, b: int|
            0 <= a < b < imported_positions(o).len() ==> imported_positions(o)[a]
                < imported_positions(o)[b],
{
    lemma_positions_where(o, |x: StickerOutcome| is_imported(x));
    lemma_positions_where(o, |x: StickerOutcome| is_failed(x));
}

/// The outcome of a whole pack: the imported records in position order and the
/// (position, error) pairs of the failures.
#[derive(Clone, Debug)]
pub struct ImportResult {
    pub stickers: Vec<Sticker>,
    pub errors: Vec<(usize, ImportError)>,
}

/// Partition the outcomes of a pack, given in position order.
pub fn reduce_outcomes(outcomes: Vec<StickerOutcome>) -> (r: ImportResult)
    ensures
        r.stickers@ == imported(outcomes@),
        r.errors@ == failed(outcomes@),
{
    let ghost all = outcomes@;
    let n = outcomes.len();
    let mut rest = outcomes;
    let mut stickers: Vec<Sticker> = Vec::new();
    let mut errors: Vec<(usize, ImportError)> = Vec::new();
    let mut i: usize = 0;
    proof {
        assert(all.take(0) =~= Seq::<StickerOutcome>::empty());
        assert(rest@ =~= all.subrange(0, n as int));
    }
    while i < n
        invariant
            n == all.len(),
            i <= n,
            rest@ == all.subrange(i as int, n as int),
            stickers@ == imported(all.take(i as int)),
            errors@ == failed(all.take(i as int)),
        decreases n - i,
    {
        let x = rest.remove(0);
        proof {
            assert(x == all[i as int]);
            assert(rest@ =~= all.subrange(i + 1, n as int));
            assert(all.take(i + 1).drop_last() =~= all.take(i as int));
            assert(all.take(i + 1).last() == all[i as int]);
        }
        match x {
            StickerOutcome::Imported(rec) => stickers.push(rec),
            StickerOutcome::Excluded => {},
            StickerOutcome::Failed(e) => errors.push((i, e)),
        }
        i = i + 1;
    }
    proof {
        assert(all.take(n as int) =~= all);
    }
    ImportResult { stickers, errors }
}

/// When each imported record carries the position of its outcome, the
/// success list is ordered by source position.
pub proof fn lemma_successes_in_position_order(o: Seq<StickerOutcome>)
    requires
        o.len() <= usize::MAX,
        forall|i: int|
            0 <= i < o.len() && #[trigger] o[i] is Imported ==> o[i]->Imported_0.position == i,
    ensures
        forall|a: int, b: int|
            0 <= a < b < imported(o).len() ==> #[trigger] imported(o)[a].position
                < #[trigger] imported(o)[b].position,
{
    lemma_outcome_lists(o);
    lemma_each_position_once(o);
    lemma_positions_where(o, |x: StickerOutcome| is_imported(x));
    assert forall|a: int, b: int| 0 <= a < b < imported(o).len() implies #[trigger] imported(
        o,
    )[a].position < #[trigger] imported(o)[b].position by {
        let pa = imported_positions(o)[a];
        let pb = imported_positions(o)[b];
        assert(o[pa] == StickerOutcome::Imported(imported(o)[a]));
        assert(o[pb] == StickerOutcome::Imported(imported(o)[b]));
    }
}

/// With uploads disabled every sticker is excluded, and the result then holds
/// neither successes nor failures.
pub proof fn lemma_all_excluded(o: Seq<StickerOutcome>)
    requires
        forall|i: int| 0 <= i < o.len() ==> #[trigger] o[i] is Excluded,
    ensures
        imported(o).len() == 0,
        failed(o).len() == 0,
    decreases o.len(),
{
    if o.len() > 0 {
        let d = o.drop_last();
        assert forall|i: int| 0 <= i < d.len() implies #[trigger] d[i] is Excluded by {
            assert(d[i] == o[i]);
        }
        lemma_all_excluded(d);
    }
}

/// Outcomes placed at their positions, one (position, outcome) pair after the
/// other, starting from `slots`.
pub open spec fn place_all(slots: Seq<StickerOutcome>, done: Seq<(usize, StickerOutcome)>) -> Seq<StickerOutcome>
    decreases done.len(),
{
    if done.len() == 0 {
        slots
    } else {
        let prev = place_all(slots, done.drop_last());
        let (p, x) = done.last();
        if p < prev.len() {
            prev.update(p as int, x)
        } else {
            prev
        }
    }
}

/// No two completions name the same position.
pub open spec fn distinct_positions(done: Seq<(usize, StickerOutcome)>) -> bool {
    forall|a: int, b: int| 0 <= a < b < done.len() ==> #[trigger] done[a].0 != #[trigger] done[b].0
}

/// Placing completions with distinct positions gives, at each position, the
/// outcome completed there, whatever the order in which they completed.
pub proof fn lemma_completion_order_irrelevant(
    slots: Seq<StickerOutcome>,
    done: Seq<(usize, StickerOutcome)>,
)
    requires
        distinct_positions(done),
    ensures
        place_all(slots, done).len() == slots.len(),
        forall|i: int, k: int|
            0 <= i < slots.len() && 0 <= k < done.len() && done[k].0 == i ==> #[trigger] place_all(
                slots,
                done,
            )[i] == #[trigger] done[k].1,
        forall|i: int|
            0 <= i < slots.len() && (forall|k: int| 0 <= k < done.len() ==> #[trigger] done[k].0 != i)
                ==> #[trigger] place_all(slots, done)[i] == slots[i],
    decreases done.len(),
{
    if done.len() > 0 {
        let d = done.drop_last();
        assert forall|a: int, b: int| 0 <= a < b < d.len() implies #[trigger] d[a].0 != #[trigger] d[b].0 by {
            assert(d[a] == done[a] && d[b] == done[b]);
        }
        lemma_completion_order_irrelevant(slots, d);
        assert forall|i: int, k: int|
            0 <= i < slots.len() && 0 <= k < done.len() && done[k].0 == i implies #[trigger] place_all(
            slots,
            done,
        )[i] == #[trigger] done[k].1 by {
            if k < d.len() {
                assert(d[k] == done[k]);
                assert(done[done.len() - 1].0 != done[k].0);
            }
        }
        assert forall|i: int|
            0 <= i < slots.len() && (forall|k: int| 0 <= k < done.len() ==> #[trigger] done[k].0 != i)
            implies #[trigger] place_all(slots, done)[i] == slots[i] by {
            assert forall|k: int| 0 <= k < d.len() implies #[trigger] d[k].0 != i by {
                assert(d[k] == done[k]);
            }
            assert(done[done.len() - 1].0 != i);
        }
    }
}

/// The outcomes of a pack as they complete, each placed at its position.
/// Positions that never complete stay excluded (work that was not started).
pub struct OutcomeSlots {
    slots: Vec<StickerOutcome>,
}

impl OutcomeSlots {
    pub closed spec fn view(&self) -> Seq<StickerOutcome> {
        self.slots@
    }

    /// `n` positions, none completed yet.
    pub fn new(n: usize) -> (r: OutcomeSlots)
        ensures
            r@ == Seq::new(n as nat, |i: int| StickerOutcome::Excluded),
    {
        let mut slots: Vec<StickerOutcome> = Vec::new();
        let mut i: usize = 0;
        while i < n
            invariant
                i <= n,
                slots@ == Seq::new(i as nat, |j: int| StickerOutcome::Excluded),
            decreases n - i,
        {
            slots.push(StickerOutcome::Excluded);
            i = i + 1;
            proof {
                assert(slots@ =~= Seq::new(i as nat, |j: int| StickerOutcome::Excluded));
            }
        }
        OutcomeSlots { slots }
    }

    /// Record the outcome of the sticker at `position`; a position out of range
    /// is ignored.
    pub fn place(&mut self, position: usize, outcome: StickerOutcome)
        ensures
            position < old(self)@.len() ==> final(self)@ == old(self)@.update(position as int, outcome),
            position >= old(self)@.len() ==> final(self)@ == old(self)@,
    {
        if position < self.slots.len() {
            self.slots.set(position, outcome);
        }
    }

    /// Reduce the placed outcomes into the result.
    pub fn finish(self) -> (r: ImportResult)
        ensures
            r.stickers@ == imported(self@),
            r.errors@ == failed(self@),
    {
        reduce_outcomes(self.slots)
    }
}

/// The (fingerprint, reference) pairs of the records that were uploaded rather
/// than found in the store, in order.
pub open spec fn new_records(s: Seq<Sticker>) -> Seq<(Seq<u8>, Seq<char>)>
    decreases s.len(),
{
    if s.len() == 0 {
        Seq::empty()
    } else {
        let rest = new_records(s.drop_last());
        if s.last().deduplicated {
            rest
        } else {
            rest.push((s.last().file_hash@, s.last().mxc_url@))
        }
    }
}

/// A copy of a byte buffer.
pub fn copy_bytes(v: &Vec<u8>) -> (r: Vec<u8>)
    ensures
        r@ == v@,
{
    let mut r: Vec<u8> = Vec::new();
    let mut i: usize = 0;
    while i < v.len()
        invariant
            i <= v@.len(),
            r@ == v@.take(i as int),
        decreases v@.len() - i,
    {
        r.push(v[i]);
        i = i + 1;
        proof {
            assert(r@ =~= v@.take(i as int));
        }
    }
    proof {
        assert(v@.take(v@.len() as int) =~= v@);
    }
    r
}

/// The records that the fingerprint store gains after a pack: one for each
/// imported sticker that was uploaded, none for those found in the store.
pub fn store_records(stickers: &Vec<Sticker>) -> (r: Vec<StoreRecord>)
    ensures
        r@.map_values(|x: StoreRecord| x@) == new_records(stickers@),
{
    let mut r: Vec<StoreRecord> = Vec::new();
    let mut i: usize = 0;
    while i < stickers.len()
        invariant
            i <= stickers@.len(),
            r@.map_values(|x: StoreRecord| x@) == new_records(stickers@.take(i as int)),
        decreases stickers@.len() - i,
    {
        let s = &stickers[i];
        let ghost before = r@;
        proof {
            assert(stickers@.take(i + 1).drop_last() =~= stickers@.take(i as int));
            assert(stickers@.take(i + 1).last() == stickers@[i as int]);
        }
        if !s.deduplicated {
            r.push(StoreRecord { hash: copy_bytes(&s.file_hash), url: s.mxc_url.clone() });
            proof {
                assert(r@.map_values(|x: StoreRecord| x@) =~= before.map_values(|x: StoreRecord| x@).push(
                    (s.file_hash@, s.mxc_url@),
                ));
            }
        }
        i = i + 1;
    }
    proof {
        assert(stickers@.take(stickers@.len() as int) =~= stickers@);
    }
    r
}

/// Content seen again after its record entered the store is not uploaded
/// again: the store yields the first occurrence's reference.
pub proof fn lemma_second_occurrence_reuses(
    store: Map<Seq<u8>, Seq<char>>,
    first: Seq<u8>,
    again: Seq<u8>,
    reference: Seq<char>,
)
    requires
        first == again,
    ensures
        sha512_of(first) == sha512_of(again),
        known_reference(store.insert(sha512_of(first), reference), again) == Some(reference),
{
}

} // verus!
