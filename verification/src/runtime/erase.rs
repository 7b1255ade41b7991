use vstd::prelude::*;

verus! {

/// The message a callable gives when it has no function left to call.
pub open spec fn cannot_call() -> Seq<u8> {
    seq![67u8, 97, 110, 110, 111, 116, 32, 99, 97, 108, 108, 32, 102, 117, 110, 99, 116, 105, 111, 110]
}

/// A function to run once on a worker, and the value it gave; a call that fails gives an optional
/// message instead.
pub struct CallableArgs<F, R> {
    pub target: Option<F>,
    pub result: Option<R>,
}

impl<F: FnOnce() -> Result<R, Option<Vec<u8>>>, R> CallableArgs<F, R> {
    /// Runs the function once: without a function left it gives the message `Cannot call
    /// function`; a value is kept as the result, and a failure gives its message.
    pub fn call(&mut self) -> (r: Option<Vec<u8>>)
        requires
            old(self).target matches Some(f) ==> call_requires(f, ()),
        ensures
            final(self).target is None,
            match old(self).target {
                None => {
                    &&& r matches Some(message) && message@ == cannot_call()
                    &&& final(self).result == old(self).result
                },
                Some(f) => exists|outcome: Result<R, Option<Vec<u8>>>|
                    {
                        &&& call_ensures(f, (), outcome)
                        &&& match outcome {
                            Ok(value) => r is None && final(self).result == Some(value),
                            Err(message) => r == message && final(self).result == old(self).result,
                        }
                    },
            },
    {
        let result = match self.target.take() {
            None => {
                return Some(vec![67u8, 97, 110, 110, 111, 116, 32, 99, 97, 108, 108, 32, 102, 117, 110, 99, 116, 105, 111, 110]);
            },
            Some(target) => target(),
        };

        match result {
            Ok(value) => self.result = Some(value),
            Err(message) => return message,
        }

        None
    }
}

} // verus!
