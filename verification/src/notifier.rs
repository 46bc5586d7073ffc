//! The batch-coalescing notifier: one batch of problem outcomes is in
//! flight at a time; its events are accumulated until the batch is
//! complete, times out, or is abandoned because an event of another batch
//! arrived, and exactly one summary notification is emitted per batch.
//!
//! The accumulator is a plain value owned by the consumer loop. Every
//! transition is the pure function [`step`] over the abstract state
//! [`CtxV`]; the loop around it only moves messages and performs the
//! notification's delivery.

use vstd::prelude::*;

use crate::data::{BatchDesc, BatchDumpRes};
use crate::text::{
    dec_of, dec_str, lemma_lex_lt_connected, lemma_lex_lt_irreflexive, lemma_lex_lt_transitive,
    lex_lt, str_lt,
};

verus! {

/// Abstract value of a [`BatchDesc`].
#[verifier::ext_equal]
pub struct BatchDescV {
    pub id: Seq<char>,
    pub size: u64,
}

impl View for BatchDesc {
    type V = BatchDescV;

    open spec fn view(&self) -> BatchDescV {
        BatchDescV { id: self.id@, size: self.size }
    }
}

/// Abstract value of a [`BatchDumpRes`].
#[verifier::ext_equal]
pub struct ResV {
    pub batch: BatchDescV,
    pub group: Seq<char>,
    pub code: Option<Seq<char>>,
    pub ctx: Option<Seq<char>>,
}

impl View for BatchDumpRes {
    type V = ResV;

    open spec fn view(&self) -> ResV {
        ResV {
            batch: self.batch@,
            group: self.group@,
            code: self.code.deep_view(),
            ctx: self.ctx.deep_view(),
        }
    }
}

/// Abstract accumulator state: the batch in flight (if any), the latest
/// context path, the two counters, and the success codes in display order.
#[verifier::ext_equal]
pub struct CtxV {
    pub batch: Option<ResV>,
    pub ctx: Option<Seq<char>>,
    pub ok: nat,
    pub err: nat,
    pub codes: Seq<Seq<char>>,
}

/// The state with no batch in flight.
pub open spec fn empty_state() -> CtxV {
    CtxV { batch: None, ctx: None, ok: 0, err: 0, codes: Seq::empty() }
}

/// The expected size as the accumulator compares it against the counters:
/// a size the machine cannot count to stands in as one.
pub open spec fn clamp_size(size: u64) -> nat {
    if size <= usize::MAX {
        size as nat
    } else {
        1
    }
}

/// The expected size as the summary header displays it: a size the machine
/// cannot count to stands in as zero, as does a missing batch.
pub open spec fn display_size(s: CtxV) -> nat {
    match s.batch {
        Some(b) => if b.batch.size <= usize::MAX {
            b.batch.size as nat
        } else {
            0
        },
        None => 0,
    }
}

/// How many outcomes the summary header reports as still missing.
pub open spec fn remaining_of(s: CtxV) -> nat {
    if s.ok + s.err <= display_size(s) {
        (display_size(s) - (s.ok + s.err)) as nat
    } else {
        0
    }
}

/// The code list is strictly ascending: sorted for display, and free of
/// duplicates.
pub open spec fn sorted_strict(cs: Seq<Seq<char>>) -> bool {
    forall|i: int, j: int| 0 <= i < j < cs.len() ==> lex_lt(cs[i], cs[j])
}

/// Inserting a code into the ascending list: it lands at its place in the
/// order, and a code already present leaves the list unchanged.
pub open spec fn insert_code(cs: Seq<Seq<char>>, c: Seq<char>) -> Seq<Seq<char>>
    decreases cs.len(),
{
    if cs.len() == 0 {
        seq![c]
    } else if lex_lt(cs[0], c) {
        seq![cs[0]] + insert_code(cs.drop_first(), c)
    } else if cs[0] == c {
        cs
    } else {
        seq![c] + cs
    }
}

/// What [`insert_code`] does: it keeps the list strictly ascending, adds
/// exactly the given code, and deduplicates.
pub proof fn lemma_insert_code(cs: Seq<Seq<char>>, c: Seq<char>)
    requires
        sorted_strict(cs),
    ensures
        sorted_strict(insert_code(cs, c)),
        forall|x: Seq<char>|
            #[trigger] insert_code(cs, c).contains(x) <==> (cs.contains(x) || x == c),
        cs.contains(c) ==> insert_code(cs, c) == cs,
        !cs.contains(c) ==> insert_code(cs, c).len() == cs.len() + 1,
    decreases cs.len(),
{
    lemma_lex_lt_irreflexive(c);
    if cs.len() == 0 {
        assert(seq![c][0] == c);
        assert(insert_code(cs, c).contains(c));
    } else if lex_lt(cs[0], c) {
        let d = cs.drop_first();
        assert(sorted_strict(d)) by {
            assert(forall|i: int, j: int|
                0 <= i < j < d.len() ==> d[i] == cs[i + 1] && d[j] == cs[j + 1]);
        }
        lemma_insert_code(d, c);
        let r = seq![cs[0]] + insert_code(d, c);
        assert(insert_code(cs, c) == r);
        // every element of the tail insertion is above the head
        assert forall|i: int, j: int| 0 <= i < j < r.len() implies lex_lt(r[i], r[j]) by {
            if i == 0 {
                let x = insert_code(d, c)[j - 1];
                assert(insert_code(d, c).contains(x));
                if x == c {
                    assert(lex_lt(r[i], r[j]));
                } else {
                    let k = choose|k: int| 0 <= k < d.len() && d[k] == x;
                    assert(cs[k + 1] == x);
                    assert(lex_lt(cs[0], cs[k + 1]));
                }
            } else {
                assert(r[i] == insert_code(d, c)[i - 1]);
                assert(r[j] == insert_code(d, c)[j - 1]);
            }
        }
        // membership
        assert forall|x: Seq<char>|
            #[trigger] r.contains(x) <==> (cs.contains(x) || x == c) by {
            if r.contains(x) {
                let k = choose|k: int| 0 <= k < r.len() && r[k] == x;
                if k == 0 {
                    assert(cs[0] == x);
                } else {
                    assert(insert_code(d, c).contains(x));
                    if x != c {
                        let m = choose|m: int| 0 <= m < d.len() && d[m] == x;
                        assert(cs[m + 1] == x);
                    }
                }
            }
            if cs.contains(x) {
                let k = choose|k: int| 0 <= k < cs.len() && cs[k] == x;
                if k == 0 {
                    assert(r[0] == x);
                } else {
                    assert(d[k - 1] == x);
                    assert(insert_code(d, c).contains(x));
                    let m = choose|m: int| 0 <= m < insert_code(d, c).len()
                        && insert_code(d, c)[m] == x;
                    assert(r[m + 1] == x);
                }
            }
            if x == c {
                assert(insert_code(d, c).contains(c));
                let m = choose|m: int| 0 <= m < insert_code(d, c).len()
                    && insert_code(d, c)[m] == c;
                assert(r[m + 1] == c);
            }
        }
        // the head differs from c, so membership of c reduces to the tail
        if cs.contains(c) {
            let k = choose|k: int| 0 <= k < cs.len() && cs[k] == c;
            assert(k != 0);
            assert(d[k - 1] == c);
            assert(d.contains(c));
            assert(r =~= cs) by {
                assert(insert_code(d, c) == d);
            }
        }
        if !cs.contains(c) {
            assert(!d.contains(c)) by {
                if d.contains(c) {
                    let k = choose|k: int| 0 <= k < d.len() && d[k] == c;
                    assert(cs[k + 1] == c);
                }
            }
        }
    } else if cs[0] == c {
        assert(cs.contains(c)) by {
            assert(cs[0] == c);
        }
    } else {
        if !lex_lt(c, cs[0]) {
            lemma_lex_lt_connected(cs[0], c);
        }
        assert(lex_lt(c, cs[0]));
        let r = seq![c] + cs;
        assert forall|i: int, j: int| 0 <= i < j < r.len() implies lex_lt(r[i], r[j]) by {
            if i == 0 {
                if j == 1 {
                    assert(r[j] == cs[0]);
                } else {
                    assert(r[j] == cs[j - 1]);
                    assert(lex_lt(cs[0], cs[j - 1]));
                    lemma_lex_lt_transitive(c, cs[0], cs[j - 1]);
                }
            } else {
                assert(r[i] == cs[i - 1]);
                assert(r[j] == cs[j - 1]);
            }
        }
        assert forall|x: Seq<char>|
            #[trigger] r.contains(x) <==> (cs.contains(x) || x == c) by {
            if r.contains(x) {
                let k = choose|k: int| 0 <= k < r.len() && r[k] == x;
                if k > 0 {
                    assert(cs[k - 1] == x);
                }
            }
            if cs.contains(x) {
                let k = choose|k: int| 0 <= k < cs.len() && cs[k] == x;
                assert(r[k + 1] == x);
            }
            if x == c {
                assert(r[0] == c);
            }
        }
        if cs.contains(c) {
            let k = choose|k: int| 0 <= k < cs.len() && cs[k] == c;
            if k == 0 {
                assert(false);
            } else {
                assert(lex_lt(cs[0], cs[k]));
                assert(false);
            }
        }
    }
}

/// Where [`insert_code`] lands positionally: below an insertion point that
/// splits the ascending list at the new code, everything is smaller; at it,
/// either the code is already there or it is inserted right there.
proof fn lemma_insert_code_at(cs: Seq<Seq<char>>, c: Seq<char>, k: int)
    requires
        sorted_strict(cs),
        0 <= k <= cs.len(),
        forall|j: int| 0 <= j < k ==> lex_lt(cs[j], c),
        k < cs.len() ==> !lex_lt(cs[k], c),
    ensures
        k < cs.len() && cs[k] == c ==> insert_code(cs, c) == cs,
        !(k < cs.len() && cs[k] == c) ==> insert_code(cs, c) == cs.insert(k, c),
    decreases cs.len(),
{
    if cs.len() == 0 {
        assert(insert_code(cs, c) =~= cs.insert(0, c));
    } else if k == 0 {
        if cs[0] == c {
        } else {
            assert(!lex_lt(cs[0], c));
            assert(insert_code(cs, c) =~= cs.insert(0, c));
        }
    } else {
        assert(lex_lt(cs[0], c));
        let d = cs.drop_first();
        assert(sorted_strict(d)) by {
            assert(forall|i: int, j: int|
                0 <= i < j < d.len() ==> d[i] == cs[i + 1] && d[j] == cs[j + 1]);
        }
        assert(forall|j: int| 0 <= j < k - 1 ==> lex_lt(#[trigger] d[j], c)) by {
            assert(forall|j: int| 0 <= j < k - 1 ==> d[j] == cs[j + 1]);
        }
        assert(k - 1 < d.len() ==> !lex_lt(d[k - 1], c));
        lemma_insert_code_at(d, c, k - 1);
        if k < cs.len() && cs[k] == c {
            assert(d[k - 1] == c);
            assert(insert_code(d, c) == d);
            assert(seq![cs[0]] + d =~= cs);
        } else {
            assert(insert_code(d, c) == d.insert(k - 1, c));
            assert(seq![cs[0]] + d.insert(k - 1, c) =~= cs.insert(k, c));
        }
    }
}

/// Inserts `c` into the ascending code list, keeping it ascending and free
/// of duplicates, exactly as [`insert_code`] says.
fn insert_sorted(v: &mut Vec<String>, c: String)
    requires
        sorted_strict(old(v).deep_view()),
    ensures
        final (v).deep_view() == insert_code(old(v).deep_view(), c@),
{
    let ghost cs = v.deep_view();
    let mut k: usize = 0;
    while k < v.len() && str_lt(v[k].as_str(), c.as_str())
        invariant
            k <= v.len(),
            v == old(v),
            cs == v.deep_view(),
            forall|j: int| 0 <= j < k ==> lex_lt(#[trigger] cs[j], c@),
        decreases v.len() - k,
    {
        assert(cs[k as int] == v@[k as int]@);
        k = k + 1;
    }
    proof {
        assert(k < v.len() ==> !lex_lt(cs[k as int], c@)) by {
            if k < v.len() {
                assert(cs[k as int] == v@[k as int]@);
            }
        }
        lemma_insert_code_at(cs, c@, k as int);
    }
    if k < v.len() && v[k].eq(&c) {
        proof {
            assert(cs[k as int] == v@[k as int]@);
        }
        return;
    }
    proof {
        assert(k < v.len() ==> cs[k as int] != c@) by {
            if k < v.len() {
                assert(cs[k as int] == v@[k as int]@);
            }
        }
    }
    v.insert(k, c);
    proof {
        assert(v.deep_view() =~= cs.insert(k as int, c@));
    }
}

/// Folding one outcome of the in-flight batch into the state: a success
/// bumps the success counter and files its code, a failure bumps the
/// failure counter; the latest present context path wins; the outcome
/// itself, its code taken, becomes the batch in flight.
pub open spec fn accumulate(s: CtxV, e: ResV) -> CtxV {
    CtxV {
        batch: Some(ResV { batch: e.batch, group: e.group, code: None, ctx: e.ctx }),
        ctx: if e.ctx is Some {
            e.ctx
        } else {
            s.ctx
        },
        ok: if e.code is Some {
            s.ok + 1
        } else {
            s.ok
        },
        err: if e.code is Some {
            s.err
        } else {
            s.err + 1
        },
        codes: match e.code {
            Some(c) => insert_code(s.codes, c),
            None => s.codes,
        },
    }
}

/// A notification to be emitted: the state snapshot it is rendered from
/// and its tag.
#[verifier::ext_equal]
pub struct EmitV {
    pub state: CtxV,
    pub hint: Seq<char>,
}

/// One transition of the accumulator. `None` stands for the deadline
/// expiring. An expired deadline reports the batch in flight as timed out;
/// an event of another batch abandons the batch in flight and reports it
/// as mismatched, and the triggering event is discarded with it; an event
/// of the batch in flight accumulates, and completes the batch when the
/// counters reach its expected size.
pub open spec fn step(s: CtxV, ev: Option<ResV>) -> (CtxV, Option<EmitV>) {
    match ev {
        None => (empty_state(), Some(EmitV { state: s, hint: ("TIMEOUT")@ })),
        Some(e) => {
            let stale = match s.batch {
                Some(b) => b.batch.id != e.batch.id,
                None => false,
            };
            if stale {
                (empty_state(), Some(EmitV { state: s, hint: ("BATCH MISMATCH")@ }))
            } else {
                let s1 = accumulate(s, e);
                if s1.ok + s1.err == clamp_size(e.batch.size) {
                    (empty_state(), Some(EmitV { state: s1, hint: ("DONE")@ }))
                } else {
                    (s1, None)
                }
            }
        },
    }
}

/// The summary body's code list: every success code in display order, each
/// followed by a comma.
pub open spec fn joined_codes(cs: Seq<Seq<char>>) -> Seq<char>
    decreases cs.len(),
{
    if cs.len() == 0 {
        Seq::empty()
    } else {
        cs[0] + (",")@ + joined_codes(cs.drop_first())
    }
}

/// Appending one code extends the joined list at its end.
proof fn lemma_joined_codes_push(cs: Seq<Seq<char>>, c: Seq<char>)
    ensures
        joined_codes(cs.push(c)) == joined_codes(cs) + c + (",")@,
    decreases cs.len(),
{
    if cs.len() == 0 {
        assert(cs.push(c)[0] == c);
        assert(cs.push(c).drop_first() =~= Seq::<Seq<char>>::empty());
        assert(joined_codes(cs.push(c)) == c + (",")@ + joined_codes(
            Seq::<Seq<char>>::empty(),
        ));
        assert(joined_codes(Seq::<Seq<char>>::empty()) =~= Seq::<char>::empty());
        assert(joined_codes(cs) =~= Seq::<char>::empty());
        assert(joined_codes(cs.push(c)) =~= joined_codes(cs) + c + (",")@);
    } else {
        assert(cs.push(c).drop_first() =~= cs.drop_first().push(c));
        lemma_joined_codes_push(cs.drop_first(), c);
        assert(joined_codes(cs.push(c)) =~= joined_codes(cs) + c + (",")@);
    }
}

/// The summary body: `{ok}/{err}/{remaining} ok: ` then the code list.
pub open spec fn body_of(s: CtxV) -> Seq<char> {
    dec_of(s.ok) + ("/")@ + dec_of(s.err) + ("/")@ + dec_of(remaining_of(s)) + (" ok: ")@
        + joined_codes(s.codes)
}

/// The group label the summary is titled with.
pub open spec fn group_of(s: CtxV) -> Seq<char> {
    match s.batch {
        Some(b) => b.group,
        None => ("unknown")@,
    }
}

/// The greatest position in `[0, j]` holding a path separator, or `-1`
/// when there is none.
pub open spec fn last_slash(s: Seq<char>, j: int) -> int
    decreases j + 1,
{
    if j < 0 {
        -1
    } else if s[j] == '/' {
        j
    } else {
        last_slash(s, j - 1)
    }
}

/// The marker file that a finalized batch writes: `current-context` beside
/// the final segment of the stored context path, holding that final
/// segment (the context key). No marker can be derived when no context
/// path was recorded or its final segment is empty.
pub open spec fn marker_of(ctx: Option<Seq<char>>) -> Option<(Seq<char>, Seq<char>)> {
    match ctx {
        None => None,
        Some(c) => {
            let l = last_slash(c, c.len() - 1);
            let name = c.subrange(l + 1, c.len() as int);
            if name.len() == 0 {
                None
            } else {
                Some((c.subrange(0, l + 1) + ("current-context")@, name))
            }
        },
    }
}

/// Everything rendered about one finalized batch: the tag, the group
/// label, the summary body, and the marker file to write.
#[verifier::ext_equal]
pub struct NoticeV {
    pub hint: Seq<char>,
    pub group: Seq<char>,
    pub body: Seq<char>,
    pub marker: Option<(Seq<char>, Seq<char>)>,
}

/// Rendering a state snapshot under a tag.
pub open spec fn notice_of(s: CtxV, hint: Seq<char>) -> NoticeV {
    NoticeV { hint, group: group_of(s), body: body_of(s), marker: marker_of(s.ctx) }
}

/// The marker file derived from a batch's context path.
#[derive(Debug, Clone)]
pub struct Marker {
    pub path: String,
    pub content: String,
}

/// A rendered summary notification, ready for delivery. The deliverer
/// writes the marker file first and decorates the title according to the
/// outcome (see [`title_for`]).
#[derive(Debug, Clone)]
pub struct NotifyRequest {
    pub hint: String,
    pub group: String,
    pub body: String,
    pub marker: Option<Marker>,
}

impl View for NotifyRequest {
    type V = NoticeV;

    open spec fn view(&self) -> NoticeV {
        NoticeV {
            hint: self.hint@,
            group: self.group@,
            body: self.body@,
            marker: match self.marker {
                Some(m) => Some((m.path@, m.content@)),
                None => None,
            },
        }
    }
}

/// The accumulator. At most one batch is in flight at a time; its events
/// are counted and their success codes collected until the batch
/// finalizes, and then the state is reset.
#[derive(Debug)]
pub struct NotifyProxyCtx {
    pub batch: Option<BatchDumpRes>,
    pub ctx: Option<String>,
    pub ok_cnt: usize,
    pub err_cnt: usize,
    pub code_set: Vec<String>,
}

impl View for NotifyProxyCtx {
    type V = CtxV;

    open spec fn view(&self) -> CtxV {
        CtxV {
            batch: match self.batch {
                Some(b) => Some(b@),
                None => None,
            },
            ctx: self.ctx.deep_view(),
            ok: self.ok_cnt as nat,
            err: self.err_cnt as nat,
            codes: self.code_set.deep_view(),
        }
    }
}

/// The states the accumulator moves through: while idle everything is
/// empty; while a batch is in flight at least one outcome has arrived and
/// the stored outcome's code has been taken; the code list is always
/// strictly ascending and never larger than the success count.
pub open spec fn wf_state(s: CtxV) -> bool {
    &&& s.batch is None ==> s.ok == 0 && s.err == 0 && s.codes.len() == 0 && s.ctx is None
    &&& match s.batch {
        Some(b) => {
            &&& 1 <= s.ok + s.err
            &&& b.code is None
        },
        None => true,
    }
    &&& sorted_strict(s.codes)
    &&& s.codes.len() <= s.ok
}

impl NotifyProxyCtx {
    /// The accumulator's invariant; see [`wf_state`].
    pub open spec fn wf(&self) -> bool {
        wf_state(self@)
    }

    /// Empties the accumulator: no batch in flight, zero counters, no
    /// codes, no context path.
    pub fn reset(&mut self)
        ensures
            final (self)@ == empty_state(),
            final (self).wf(),
    {
        self.ok_cnt = 0;
        self.err_cnt = 0;
        self.code_set = Vec::new();
        self.batch = None;
        self.ctx = None;
        proof {
            assert(self.code_set.deep_view() =~= Seq::<Seq<char>>::empty());
            assert(self@ =~= empty_state());
        }
    }

    /// Renders the summary of the current state under the given tag,
    /// exactly as [`notice_of`] says. Delivery is the caller's business.
    pub fn notify(&self, hint: &str) -> (r: NotifyRequest)
        requires
            self.ok_cnt + self.err_cnt <= usize::MAX,
        ensures
            r@ == notice_of(self@, hint@),
    {
        let mut body = dec_str(self.ok_cnt);
        body.append("/");
        let errs = dec_str(self.err_cnt);
        body.append(errs.as_str());
        body.append("/");
        let size: usize = match &self.batch {
            Some(b) => {
                if b.batch.size <= usize::MAX as u64 {
                    b.batch.size as usize
                } else {
                    0
                }
            },
            None => 0,
        };
        let used = self.ok_cnt + self.err_cnt;
        let remaining = if size >= used {
            size - used
        } else {
            0
        };
        let rems = dec_str(remaining);
        body.append(rems.as_str());
        body.append(" ok: ");
        proof {
            assert(remaining as nat == remaining_of(self@));
        }
        let ghost prefix = body@;
        let mut k: usize = 0;
        proof {
            assert(self@.codes.take(0) =~= Seq::<Seq<char>>::empty());
            assert(body@ =~= prefix + joined_codes(self@.codes.take(0)));
        }
        while k < self.code_set.len()
            invariant
                k <= self.code_set.len(),
                body@ == prefix + joined_codes(self@.codes.take(k as int)),
            decreases self.code_set.len() - k,
        {
            body.append(self.code_set[k].as_str());
            body.append(",");
            proof {
                assert(self@.codes[k as int] == self.code_set@[k as int]@);
                assert(self@.codes.take(k + 1) =~= self@.codes.take(k as int).push(
                    self@.codes[k as int],
                ));
                lemma_joined_codes_push(self@.codes.take(k as int), self@.codes[k as int]);
                assert(body@ =~= prefix + joined_codes(self@.codes.take(k + 1)));
            }
            k = k + 1;
        }
        proof {
            assert(self@.codes.take(self.code_set.len() as int) =~= self@.codes);
            assert(body@ =~= body_of(self@));
        }
        let group = match &self.batch {
            Some(b) => b.group.clone(),
            None => "unknown".to_owned(),
        };
        let marker = derive_marker(&self.ctx);
        let r = NotifyRequest { hint: hint.to_owned(), group, body, marker };
        proof {
            assert(r@ =~= notice_of(self@, hint@));
        }
        r
    }

    /// Accumulates one stimulus: an arriving outcome, or (`None`) the
    /// deadline expiring. The state moves as [`step`] says, and the
    /// returned summary, when one is due, renders the snapshot that
    /// [`step`] emits.
    pub fn handle_new_batch(&mut self, newbatch: Option<BatchDumpRes>) -> (r: Option<
        NotifyRequest,
    >)
        requires
            old(self).wf(),
            old(self).ok_cnt + old(self).err_cnt < usize::MAX,
        ensures
            final (self).wf(),
            final (self)@ == step(old(self)@, ev_view(newbatch)).0,
            match (r, step(old(self)@, ev_view(newbatch)).1) {
                (Some(req), Some(em)) => req@ == notice_of(em.state, em.hint),
                (None, None) => true,
                _ => false,
            },
    {
        let mut nb = match newbatch {
            None => {
                let req = self.notify("TIMEOUT");
                self.reset();
                return Some(req);
            },
            Some(nb) => nb,
        };
        match &self.batch {
            Some(last) => {
                if !last.batch.id.eq(&nb.batch.id) {
                    let req = self.notify("BATCH MISMATCH");
                    self.reset();
                    return Some(req);
                }
            },
            None => {},
        }
        let code = nb.code;
        nb.code = None;
        match code {
            Some(c) => {
                proof {
                    lemma_insert_code(self@.codes, c@);
                }
                insert_sorted(&mut self.code_set, c);
                self.ok_cnt = self.ok_cnt + 1;
            },
            None => {
                self.err_cnt = self.err_cnt + 1;
            },
        }
        let size: usize = if nb.batch.size <= usize::MAX as u64 {
            nb.batch.size as usize
        } else {
            1
        };
        match &nb.ctx {
            Some(c) => {
                self.ctx = Some(c.clone());
            },
            None => {},
        }
        self.batch = Some(nb);
        proof {
            assert(self@ =~= accumulate(old(self)@, ev_view(newbatch)->0));
        }
        if self.ok_cnt + self.err_cnt == size {
            let req = self.notify("DONE");
            self.reset();
            Some(req)
        } else {
            None
        }
    }
}

/// Spec view of an optional incoming outcome.
pub open spec fn ev_view(e: Option<BatchDumpRes>) -> Option<ResV> {
    match e {
        Some(b) => Some(b@),
        None => None,
    }
}

/// How long after a batch's first event the batch may keep accumulating.
/// The deadline is fixed at that first event and never extended.
pub const NOTIFY_DEADLINE_SECS: u64 = 5;

/// What the consumer loop can observe: an outcome arrived, the in-flight
/// batch's fixed deadline expired, or the inbound channel closed for good.
#[derive(Debug)]
pub enum ProxyEvent {
    Outcome(BatchDumpRes),
    DeadlineExpired,
    ChannelClosed,
}

/// What the loop must do after one stimulus: deliver a summary if one is
/// due, arm the five-second deadline if a batch just went into flight, and
/// stop for good if the channel closed.
#[derive(Debug)]
pub struct ProxyStep {
    pub notice: Option<NotifyRequest>,
    pub arm_deadline: bool,
    pub terminate: bool,
}

impl NotifyProxyCtx {
    /// The loop's whole policy for one stimulus. An arriving outcome and an
    /// expired deadline move the state as [`step`] says; a closed channel
    /// terminates the loop and discards any partial batch without a
    /// summary — channel closure is not a timeout. The deadline is armed
    /// exactly when an outcome arrives while no batch is in flight.
    pub fn handle_event(&mut self, ev: ProxyEvent) -> (r: ProxyStep)
        requires
            old(self).wf(),
            old(self).ok_cnt + old(self).err_cnt < usize::MAX,
        ensures
            final (self).wf(),
            match ev {
                ProxyEvent::ChannelClosed => {
                    &&& r.terminate
                    &&& r.notice is None
                    &&& !r.arm_deadline
                    &&& final (self)@ == empty_state()
                },
                ProxyEvent::DeadlineExpired => {
                    &&& !r.terminate
                    &&& !r.arm_deadline
                    &&& final (self)@ == step(old(self)@, None).0
                    &&& match (r.notice, step(old(self)@, None).1) {
                        (Some(req), Some(em)) => req@ == notice_of(em.state, em.hint),
                        (None, None) => true,
                        _ => false,
                    }
                },
                ProxyEvent::Outcome(b) => {
                    &&& !r.terminate
                    &&& r.arm_deadline == (old(self)@.batch is None)
                    &&& final (self)@ == step(old(self)@, Some(b@)).0
                    &&& match (r.notice, step(old(self)@, Some(b@)).1) {
                        (Some(req), Some(em)) => req@ == notice_of(em.state, em.hint),
                        (None, None) => true,
                        _ => false,
                    }
                },
            },
    {
        match ev {
            ProxyEvent::ChannelClosed => {
                self.reset();
                ProxyStep { notice: None, arm_deadline: false, terminate: true }
            },
            ProxyEvent::DeadlineExpired => {
                let notice = self.handle_new_batch(None);
                ProxyStep { notice, arm_deadline: false, terminate: false }
            },
            ProxyEvent::Outcome(b) => {
                let arm_deadline = self.batch.is_none();
                let notice = self.handle_new_batch(Some(b));
                ProxyStep { notice, arm_deadline, terminate: false }
            },
        }
    }
}

/// The delivered title: `{tag}: {group}`, with the group label prefixed by
/// an error mark when no marker file could be derived from the context
/// path, or by another when the marker file's write failed.
pub open spec fn title_of(
    hint: Seq<char>,
    group: Seq<char>,
    ctx_derived: bool,
    write_ok: bool,
) -> Seq<char> {
    let g = if !ctx_derived {
        ("ERRCTX: ")@ + group
    } else if !write_ok {
        ("WERRCTX: ")@ + group
    } else {
        group
    };
    hint + (": ")@ + g
}

/// Computes [`title_of`]: the deliverer reports whether a marker file was
/// derived and whether writing it succeeded, and gets the decorated title.
pub fn title_for(hint: &str, group: &str, ctx_derived: bool, write_ok: bool) -> (r: String)
    ensures
        r@ == title_of(hint@, group@, ctx_derived, write_ok),
{
    let mut r = hint.to_owned();
    r.append(": ");
    if !ctx_derived {
        r.append("ERRCTX: ");
    } else if !write_ok {
        r.append("WERRCTX: ");
    }
    r.append(group);
    proof {
        assert(r@ =~= title_of(hint@, group@, ctx_derived, write_ok));
    }
    r
}

/// One past the last path separator in `s`, zero when there is none.
fn find_last_slash_p1(s: &str, n: usize) -> (r: usize)
    requires
        n == s@.len(),
    ensures
        r == last_slash(s@, s@.len() - 1) + 1,
        r <= n,
{
    let mut k = n;
    while k > 0
        invariant
            k <= n,
            n == s@.len(),
            last_slash(s@, n - 1) == last_slash(s@, k - 1),
        decreases k,
    {
        if s.get_char(k - 1) == '/' {
            return k;
        }
        k = k - 1;
    }
    0
}

/// Computes [`marker_of`] for a stored context path.
fn derive_marker(ctx: &Option<String>) -> (r: Option<Marker>)
    ensures
        (match r {
            Some(m) => Some((m.path@, m.content@)),
            None => None::<(Seq<char>, Seq<char>)>,
        }) == marker_of(ctx.deep_view()),
{
    match ctx {
        None => None,
        Some(c) => {
            let cs = c.as_str();
            let n = cs.unicode_len();
            let lp1 = find_last_slash_p1(cs, n);
            if lp1 == n {
                None
            } else {
                let mut path = cs.substring_char(0, lp1).to_owned();
                path.append("current-context");
                let content = cs.substring_char(lp1, n).to_owned();
                proof {
                    assert(path@ =~= c@.subrange(0, last_slash(c@, c@.len() - 1) + 1)
                        + ("current-context")@);
                }
                Some(Marker { path, content })
            }
        },
    }
}

impl Default for NotifyProxyCtx {
    fn default() -> (d: Self)
        ensures
            d@ == empty_state(),
            d.wf(),
    {
        let d = NotifyProxyCtx {
            batch: None,
            ctx: None,
            ok_cnt: 0,
            err_cnt: 0,
            code_set: Vec::new(),
        };
        proof {
            assert(d.code_set.deep_view() =~= Seq::<Seq<char>>::empty());
            assert(d@ =~= empty_state());
        }
        d
    }
}

} // verus!
