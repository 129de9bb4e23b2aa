//! Loans of buffers for writing without a copy: what is lent is published
//! or given back, once.
use crate::error::{error_of_code, DDSError};
use crate::sample::ChunkId;
use crate::sertype::SerType;
use crate::value::{Value, ValueView};
use vstd::prelude::*;

verus! {

/// An entity of the transport, by its handle.
#[derive(Debug, PartialEq, Eq, Structural, Clone, Copy)]
pub struct DdsEntity(pub i32);

/// The states of a buffer that the transport lent for writing.
pub enum LoanedInner {
    /// Lent, and nothing written yet.
    Uninitialized(ChunkId, DdsEntity),
    /// Lent, and a value written.
    Initialized(ChunkId, DdsEntity),
    /// Given back or published: the buffer is the transport's again.
    Empty,
}

/// A buffer that the transport lent for writing, and the value written
/// into it, as far as this side wrote it.
pub struct Loaned {
    inner: LoanedInner,
    content: Option<Value>,
}

/// The states of a buffer that the transport lent for writing.
pub enum LoanState {
    Uninitialized,
    Initialized,
    Empty,
}

/// A buffer that the transport lent for writing.
pub struct LoanedView {
    pub state: LoanState,
    /// The buffer and the writer that it was lent to, while it is lent.
    pub buffer: Option<(ChunkId, DdsEntity)>,
    /// The value written into the buffer, as far as this side wrote it.
    pub content: Option<ValueView>,
}

impl View for Loaned {
    type V = LoanedView;

    closed spec fn view(&self) -> LoanedView {
        LoanedView {
            state: match self.inner {
                LoanedInner::Uninitialized(_, _) => LoanState::Uninitialized,
                LoanedInner::Initialized(_, _) => LoanState::Initialized,
                LoanedInner::Empty => LoanState::Empty,
            },
            buffer: match self.inner {
                LoanedInner::Uninitialized(p, e) => Some((p, e)),
                LoanedInner::Initialized(p, e) => Some((p, e)),
                LoanedInner::Empty => None,
            },
            content: match self.content {
                Some(value) => Some(value@),
                None => None,
            },
        }
    }
}

/// What is to be done to the transport for a buffer.
pub enum LoanAction {
    /// Nothing.
    Idle,
    /// Give the buffer back to the writer unpublished.
    ReturnLoan(DdsEntity, ChunkId),
    /// Publish the buffer through the writer.
    Write(DdsEntity, ChunkId, Option<Value>),
}

/// What is to be done to the transport for a buffer.
pub enum LoanActionView {
    Idle,
    ReturnLoan(DdsEntity, ChunkId),
    Write(DdsEntity, ChunkId, Option<ValueView>),
}

impl View for LoanAction {
    type V = LoanActionView;

    open spec fn view(&self) -> LoanActionView {
        match self {
            LoanAction::Idle => LoanActionView::Idle,
            LoanAction::ReturnLoan(e, p) => LoanActionView::ReturnLoan(*e, *p),
            LoanAction::Write(e, p, content) => LoanActionView::Write(
                *e,
                *p,
                match content {
                    Some(value) => Some(value@),
                    None => None,
                },
            ),
        }
    }
}

impl LoanedView {
    /// A buffer as it is lent.
    pub open spec fn lent(buffer: ChunkId, writer: DdsEntity) -> LoanedView {
        LoanedView { state: LoanState::Uninitialized, buffer: Some((buffer, writer)), content: None }
    }

    /// The buffer after `value` was written into it.
    pub open spec fn written(self, value: ValueView) -> LoanedView {
        match self.state {
            LoanState::Empty => self,
            _ => LoanedView { state: LoanState::Initialized, content: Some(value), ..self },
        }
    }

    /// What committing the buffer asks of the transport: to publish a buffer
    /// that was written, and to take back one that was not.
    pub open spec fn commit_action(self) -> LoanActionView {
        match self.buffer {
            None => LoanActionView::Idle,
            Some((buffer, writer)) => match self.state {
                LoanState::Initialized => LoanActionView::Write(writer, buffer, self.content),
                _ => LoanActionView::ReturnLoan(writer, buffer),
            },
        }
    }

    /// What dropping the buffer asks of the transport: to take it back
    /// unpublished.
    pub open spec fn release_action(self) -> LoanActionView {
        match self.buffer {
            None => LoanActionView::Idle,
            Some((buffer, writer)) => LoanActionView::ReturnLoan(writer, buffer),
        }
    }
}

/// The transport as far as loans show it: the buffers out on loan and the
/// samples published, in order.
pub struct TransportView {
    pub outstanding: Set<ChunkId>,
    pub published: Seq<Option<ValueView>>,
}

impl TransportView {
    /// The transport after it lent `buffer`.
    pub open spec fn lend(self, buffer: ChunkId) -> TransportView {
        TransportView { outstanding: self.outstanding.insert(buffer), ..self }
    }

    /// The transport after `action` was done to it: a buffer given back is
    /// out on loan no longer, and a buffer published is out on loan no
    /// longer and adds its content to what was published.
    pub open spec fn perform(self, action: LoanActionView) -> TransportView {
        match action {
            LoanActionView::Idle => self,
            LoanActionView::ReturnLoan(_, buffer) => TransportView {
                outstanding: self.outstanding.remove(buffer),
                ..self
            },
            LoanActionView::Write(_, buffer, content) => TransportView {
                outstanding: self.outstanding.remove(buffer),
                published: self.published.push(content),
            },
        }
    }
}

/// A loan that is taken, written and committed publishes exactly one
/// sample, the value written, and leaves as many buffers out on loan as
/// there were before it was taken.
pub proof fn theorem_commit_publishes_once(
    transport: TransportView,
    buffer: ChunkId,
    writer: DdsEntity,
    value: ValueView,
)
    requires
        !transport.outstanding.contains(buffer),
    ensures
        ({
            let loan = LoanedView::lent(buffer, writer).written(value);
            let after = transport.lend(buffer).perform(loan.commit_action());
            &&& after.published == transport.published.push(Some(value))
            &&& after.outstanding == transport.outstanding
        }),
{
    let loan = LoanedView::lent(buffer, writer).written(value);
    let after = transport.lend(buffer).perform(loan.commit_action());
    assert(after.outstanding =~= transport.outstanding);
}

/// A loan that is dropped without being committed, written or not,
/// publishes nothing and leaves as many buffers out on loan as there were
/// before it was taken.
pub proof fn theorem_drop_publishes_nothing(
    transport: TransportView,
    buffer: ChunkId,
    writer: DdsEntity,
    written: Option<ValueView>,
)
    requires
        !transport.outstanding.contains(buffer),
    ensures
        ({
            let taken = LoanedView::lent(buffer, writer);
            let loan = match written {
                Some(value) => taken.written(value),
                None => taken,
            };
            let after = transport.lend(buffer).perform(loan.release_action());
            &&& after.published == transport.published
            &&& after.outstanding == transport.outstanding
        }),
{
    let taken = LoanedView::lent(buffer, writer);
    let loan = match written {
        Some(value) => taken.written(value),
        None => taken,
    };
    let after = transport.lend(buffer).perform(loan.release_action());
    assert(after.outstanding =~= transport.outstanding);
}

/// A buffer that was committed or dropped asks nothing more of the
/// transport: no buffer goes back twice.
pub proof fn theorem_empty_loan_is_idle(loan: LoanedView)
    requires
        loan.buffer is None,
    ensures
        loan.commit_action() == LoanActionView::Idle,
        loan.release_action() == LoanActionView::Idle,
{
}

impl Loaned {
    /// The buffer, while it is lent.
    pub fn as_mut_ptr(&mut self) -> (r: Option<ChunkId>)
        ensures
            final(self)@ == old(self)@,
            r == match old(self)@.buffer {
                Some((buffer, _)) => Some(buffer),
                None => None,
            },
    {
        match self.inner {
            LoanedInner::Uninitialized(p, _) => Some(p),
            LoanedInner::Initialized(p, _) => Some(p),
            LoanedInner::Empty => None,
        }
    }

    /// Declares that the buffer was written to from outside. What was
    /// written stays unknown to this side.
    pub fn assume_init(self) -> (r: Self)
        ensures
            r@ == (LoanedView {
                state: match self@.state {
                    LoanState::Empty => LoanState::Empty,
                    _ => LoanState::Initialized,
                },
                ..self@
            }),
    {
        let content = self.content;
        match self.inner {
            LoanedInner::Uninitialized(p, e) => Loaned { inner: LoanedInner::Initialized(p, e), content },
            LoanedInner::Initialized(p, e) => Loaned { inner: LoanedInner::Initialized(p, e), content },
            LoanedInner::Empty => Loaned { inner: LoanedInner::Empty, content },
        }
    }

    /// Writes `value` into the buffer. A buffer that is the transport's
    /// again takes nothing.
    pub fn write_into(&mut self, value: Value)
        ensures
            final(self)@ == old(self)@.written(value@),
    {
        match self.inner {
            LoanedInner::Uninitialized(p, e) => {
                self.inner = LoanedInner::Initialized(p, e);
                self.content = Some(value);
            },
            LoanedInner::Initialized(_, _) => {
                self.content = Some(value);
            },
            LoanedInner::Empty => {},
        }
    }

    /// Ends the loan without publishing: the buffer, written or not, goes
    /// back to the writer.
    pub fn release(self) -> (r: LoanAction)
        ensures
            r@ == self@.release_action(),
    {
        match self.inner {
            LoanedInner::Uninitialized(p, entity) => LoanAction::ReturnLoan(entity, p),
            LoanedInner::Initialized(p, entity) => LoanAction::ReturnLoan(entity, p),
            LoanedInner::Empty => LoanAction::Idle,
        }
    }
}

/// The writer's side of loans.
pub struct DdsWriter {
    entity: DdsEntity,
}

impl DdsWriter {
    /// The writer of the entity `entity`.
    pub fn new(entity: DdsEntity) -> (r: Self)
        ensures
            r.entity() == entity,
    {
        DdsWriter { entity }
    }

    /// The entity of the writer.
    pub closed spec fn entity(self) -> DdsEntity {
        self.entity
    }

    /// Whether a writer of the type may ask for a loan at all: loans are
    /// for types of fixed size only.
    pub fn loan_supported(sertype: &SerType) -> (r: Result<(), DDSError>)
        ensures
            sertype.fixed() ==> r is Ok,
            !sertype.fixed() ==> r == Err::<(), DDSError>(DDSError::Unsupported),
    {
        if !sertype.is_fixed_size() {
            // Loaning is not supported for types that are not fixed size
            return Err(DDSError::Unsupported);
        }
        Ok(())
    }

    /// Takes up what the transport answered to the request for a loan: with
    /// the code 0 and a buffer, the loan; else the failure that the code
    /// names, and the unspecified one for the code 0 without a buffer.
    pub fn loan(&mut self, sertype: &SerType, code: i32, buffer: Option<ChunkId>) -> (r: Result<Loaned, DDSError>)
        ensures
            final(self).entity() == old(self).entity(),
            !sertype.fixed() ==> r is Err && r->Err_0 == DDSError::Unsupported,
            sertype.fixed() && code == 0 && buffer is Some ==> r is Ok && r->Ok_0@ == LoanedView::lent(
                buffer->Some_0,
                old(self).entity(),
            ),
            sertype.fixed() && code == 0 && buffer is None ==> r is Err && r->Err_0 == DDSError::DdsError,
            sertype.fixed() && code != 0 ==> r is Err && r->Err_0 == error_of_code(code as int),
    {
        match DdsWriter::loan_supported(sertype) {
            Err(e) => {
                return Err(e);
            },
            Ok(()) => {},
        }
        if code == 0 {
            match buffer {
                Some(p_sample) => {
                    return Ok(
                        Loaned { inner: LoanedInner::Uninitialized(p_sample, self.entity), content: None },
                    );
                },
                None => {
                    return Err(DDSError::DdsError);
                },
            }
        } else {
            return Err(DDSError::from(code));
        }
    }

    /// Commits a loan: a buffer that was written is published, and one that
    /// was not goes back unpublished. Either way the buffer is the
    /// transport's again.
    pub fn return_loan(&mut self, buffer: Loaned) -> (r: LoanAction)
        ensures
            final(self).entity() == old(self).entity(),
            r@ == buffer@.commit_action(),
    {
        match buffer.inner {
            LoanedInner::Uninitialized(p, entity) => LoanAction::ReturnLoan(entity, p),
            LoanedInner::Initialized(p, entity) => LoanAction::Write(entity, p, buffer.content),
            LoanedInner::Empty => LoanAction::Idle,
        }
    }

    /// Reads what the transport answered to a commit or a write: the code 0
    /// is success, every other code the failure that it names.
    pub fn returned(code: i32) -> (r: Result<(), DDSError>)
        ensures
            code == 0 ==> r is Ok,
            code != 0 ==> r == Err::<(), DDSError>(error_of_code(code as int)),
    {
        if code == 0 {
            Ok(())
        } else {
            Err(DDSError::from(code))
        }
    }
}

} // verus!
