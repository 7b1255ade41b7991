use vstd::prelude::*;

verus! {

/// The command-line arguments of a process, without their terminating zero bytes.
pub struct ProcessArguments {
    args: Vec<Vec<u8>>,
}

impl ProcessArguments {
    pub closed spec fn spec_args(&self) -> Seq<Seq<u8>> {
        self.args@.map_values(|a: Vec<u8>| a@)
    }

    /// No argument holds a zero byte.
    pub open spec fn wf(&self) -> bool {
        forall|i: int, k: int|
            0 <= i < self.spec_args().len() && 0 <= k < self.spec_args()[i].len() ==> #[trigger] self.spec_args()[i][k]
                != 0
    }

    pub fn new(args: Vec<Vec<u8>>) -> (r: Self)
        ensures
            r.spec_args() == args@.map_values(|a: Vec<u8>| a@),
    {
        ProcessArguments { args }
    }

    /// The argument at `index`, if there is one.
    pub fn get(&self, index: usize) -> (r: Option<&Vec<u8>>)
        ensures
            match r {
                Some(a) => index < self.spec_args().len() && a@ == self.spec_args()[index as int],
                None => index >= self.spec_args().len(),
            },
    {
        if index >= self.args.len() {
            return None;
        }
        Some(&self.args[index])
    }

    /// Whether the argument at `index` is `value`.
    pub fn is(&self, index: usize, value: &[u8]) -> (r: bool)
        requires
            self.wf(),
        ensures
            r == (index < self.spec_args().len() && self.spec_args()[index as int] == value@),
    {
        let arg = match self.get(index) {
            None => return false,
            Some(arg) => arg,
        };
        let len = value.len();
        let mut idx: usize = 0;
        while idx < len
            invariant
                idx <= len,
                len == value@.len(),
                arg@ == self.spec_args()[index as int],
                index < self.spec_args().len(),
                self.wf(),
                idx <= arg@.len(),
                forall|k: int| 0 <= k < idx ==> arg@[k] == value@[k],
            decreases len - idx,
        {
            if idx >= arg.len() {
                return false;
            }
            if arg[idx] != value[idx] {
                return false;
            }
            idx = idx + 1;
        }
        let r = idx == arg.len();
        proof {
            if r {
                assert(arg@ =~= value@);
            }
        }
        r
    }

    /// The first of `values` that the argument at `index` is.
    pub fn select<'a>(&self, index: usize, values: &'a [&'a [u8]]) -> (r: Option<&'a [u8]>)
        requires
            self.wf(),
        ensures
            match r {
                Some(v) => exists|i: int|
                    0 <= i < values@.len() && v@ == values@[i]@ && index < self.spec_args().len()
                        && self.spec_args()[index as int] == v@ && forall|j: int|
                        0 <= j < i ==> !(#[trigger] values@[j]@ == self.spec_args()[index as int]),
                None => forall|j: int|
                    0 <= j < values@.len() ==> !(index < self.spec_args().len() && #[trigger] values@[j]@
                        == self.spec_args()[index as int]),
            },
    {
        let mut i: usize = 0;
        while i < values.len()
            invariant
                i <= values@.len(),
                self.wf(),
                forall|j: int|
                    0 <= j < i ==> !(index < self.spec_args().len() && #[trigger] values@[j]@ == self.spec_args()[index as int]),
            decreases values.len() - i,
        {
            if self.is(index, values[i]) {
                return Some(values[i]);
            }
            i = i + 1;
        }
        None
    }
}

} // verus!
