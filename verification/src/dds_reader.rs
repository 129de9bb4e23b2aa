//! How the answers of the transport to a read are judged.
use crate::error::DDSError;
use crate::sample::SampleBuffer;
use vstd::prelude::*;

verus! {

/// Why a read did not deliver.
#[derive(Debug, PartialEq, Eq, Structural, Clone, Copy)]
pub enum ReaderError {
    /// The transport refused the read.
    DdsError(DDSError),
    /// The reader was not made for waiting.
    ReaderNotAsync,
    /// A sample did not come within its deadline.
    RequestedDeadLineMissed,
}

/// What one step of a waiting read comes to.
#[derive(Debug, PartialEq, Eq, Clone, Copy)]
pub enum Poll {
    /// The read is over, with the number of samples or the failure.
    Ready(Result<usize, ReaderError>),
    /// No sample yet: wait for the next notice.
    Pending,
}

/// Reads what the transport answered to a read into `buf`: a positive
/// number is the number of samples, where the first one holds data; without
/// data in the first there is no data, and without a positive number the
/// transport had no room.
pub fn readn_from_entity_now(buf: &SampleBuffer, ret: i32) -> (r: Result<usize, DDSError>)
    requires
        ret > 0 ==> buf.slots().len() > 0,
    ensures
        ret > 0 && buf.infos()[0].valid_data ==> r == Ok::<usize, DDSError>(ret as usize),
        ret > 0 && !buf.infos()[0].valid_data ==> r == Err::<usize, DDSError>(DDSError::NoData),
        ret <= 0 ==> r == Err::<usize, DDSError>(DDSError::OutOfResources),
{
    if ret > 0 {
        // If first sample is value we assume all are
        if buf.is_valid_sample(0) {
            Ok(ret as usize)
        } else {
            Err(DDSError::NoData)
        }
    } else {
        Err(DDSError::OutOfResources)
    }
}

/// Reads what the transport answered to a read into `buf`, whatever the
/// buffer: an empty buffer holds no data.
pub fn read_outcome(buf: &SampleBuffer, ret: i32) -> (r: Result<usize, DDSError>)
    ensures
        ret > 0 && buf.slots().len() > 0 && buf.infos()[0].valid_data ==> r == Ok::<usize, DDSError>(
            ret as usize,
        ),
        ret > 0 && !(buf.slots().len() > 0 && buf.infos()[0].valid_data) ==> r == Err::<usize, DDSError>(
            DDSError::NoData,
        ),
        ret <= 0 ==> r == Err::<usize, DDSError>(DDSError::OutOfResources),
{
    if ret > 0 && buf.len() == 0 {
        Err(DDSError::NoData)
    } else {
        readn_from_entity_now(buf, ret)
    }
}

/// One step of a waiting read: a failure that a notice brought ends the
/// read; else the read is tried, and it ends with samples or with a failure
/// other than a lack of data, for which the read waits on.
pub fn poll(noticed: Result<(), ReaderError>, read: Result<usize, DDSError>) -> (r: Poll)
    ensures
        r == match noticed {
            Err(e) => Poll::Ready(Err(e)),
            Ok(()) => match read {
                Ok(len) => Poll::Ready(Ok(len)),
                Err(DDSError::NoData) | Err(DDSError::OutOfResources) => Poll::Pending,
                Err(e) => Poll::Ready(Err(ReaderError::DdsError(e))),
            },
        },
{
    // check if we have an error from any of the callbacks
    if let Err(e) = noticed {
        return Poll::Ready(Err(e));
    }
    match read {
        Ok(len) => Poll::Ready(Ok(len)),
        Err(DDSError::NoData) | Err(DDSError::OutOfResources) => Poll::Pending,
        Err(e) => {
            // Some other error happened
            Poll::Ready(Err(ReaderError::DdsError(e)))
        },
    }
}

} // verus!
