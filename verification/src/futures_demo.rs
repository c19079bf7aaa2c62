//! Computations handed to futures, and the decisions of two hand-written
//! futures and of the loop that drives them.
use vstd::prelude::*;

verus! {

/// The formatting error that the futures' computations may fail with,
/// carried through opaque.
#[verifier::external_type_specification]
#[verifier::external_body]
pub struct ExFmtError(core::fmt::Error);

/// Succeeds with 100.
pub fn my_fn() -> (r: Result<u32, Box<core::fmt::Error>>)
    ensures
        r matches Ok(v) && v == 100,
{
    Ok(100)
}

/// Succeeds with the square of `i`.
pub fn my_fn_squared(i: u32) -> (r: Result<u32, Box<core::fmt::Error>>)
    requires
        i * i <= u32::MAX,
    ensures
        r matches Ok(v) && v == i * i,
{
    Ok(i * i)
}

/// Whether a poll found its future ready, with its value.
#[derive(Debug, PartialEq, Eq, Clone, Copy, Structural)]
pub enum Async<T> {
    Ready(T),
    NotReady,
}

/// A future that counts its polls and is ready, with its count, once the
/// count reaches 3.
#[derive(Debug)]
pub struct MyFuture {
    pub count: u32,
}

impl MyFuture {
    /// A future with count 0.
    pub fn default() -> (r: MyFuture)
        ensures
            r.count == 0,
    {
        MyFuture { count: 0 }
    }

    /// At count 3, ready with 3; otherwise not ready, and the count goes up.
    pub fn poll(&mut self) -> (r: Result<Async<u32>, ()>)
        requires
            old(self).count == 3 || old(self).count < u32::MAX,
        ensures
            old(self).count == 3 ==> r == Ok::<Async<u32>, ()>(Async::Ready(3u32)) && final(self).count
                == 3,
            old(self).count != 3 ==> r == Ok::<Async<u32>, ()>(Async::NotReady) && final(self).count
                == old(self).count + 1,
    {
        match self.count {
            3 => Ok(Async::Ready(self.count)),
            _ => {
                self.count = self.count + 1;
                Ok(Async::NotReady)
            },
        }
    }
}

/// What a future that adds one to an inner future's count does with the
/// inner poll: ready when the inner one is (with the count plus one to
/// report), not ready when it is not, failed when it failed.
pub fn add_one_poll(inner: Result<Async<u32>, ()>) -> (r: (Result<Async<()>, ()>, Option<u32>))
    requires
        inner matches Ok(Async::Ready(count)) ==> count < u32::MAX,
    ensures
        match inner {
            Ok(Async::Ready(count)) => r == (Ok::<Async<()>, ()>(Async::Ready(())), Some((count
                + 1) as u32)),
            Ok(Async::NotReady) => r == (Ok::<Async<()>, ()>(Async::NotReady), None::<u32>),
            Err(_) => r == (Err::<Async<()>, ()>(()), None::<u32>),
        },
{
    match inner {
        Ok(Async::Ready(count)) => (Ok(Async::Ready(())), Some(count + 1)),
        Ok(Async::NotReady) => (Ok(Async::NotReady), None),
        Err(_) => (Err(()), None),
    }
}

/// Whether a loop that polls a future stops after this poll: when the
/// future is ready or failed.
pub fn run_stops(poll: &Result<Async<()>, ()>) -> (r: bool)
    ensures
        r == !(*poll matches Ok(Async::NotReady)),
{
    match poll {
        Ok(Async::Ready(_)) => true,
        Ok(Async::NotReady) => false,
        Err(_) => true,
    }
}

} // verus!
