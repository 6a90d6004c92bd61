use vstd::prelude::*;

verus! {

/// Adding an item to a container, by value.
pub trait Push<T>: Sized {
    /// The items held, in the order in which they were pushed.
    spec fn pushed(&self) -> Seq<T>;

    /// The container with `val` added after the items it held.
    fn push(self, val: T) -> (r: Self)
        ensures
            r.pushed() == self.pushed().push(val),
    ;
}

/// Taking an item out of a container, by value.
pub trait Pop<T>: Sized {
    /// The items held, in the order in which they were pushed.
    spec fn held(&self) -> Seq<T>;

    /// The position in `held` of the item that `pop` takes out.
    spec fn next_out(&self) -> int;

    /// The next item, if any, and the container without it.
    fn pop(self) -> (r: (Option<T>, Self))
        ensures
            self.held().len() == 0 ==> r.0 is None && r.1.held() == self.held(),
            self.held().len() > 0 ==> r.0 == Some(self.held()[self.next_out()]) && r.1.held()
                == self.held().remove(self.next_out()),
    ;
}

/// A last-in, first-out stack.
#[derive(Debug, Clone)]
pub struct Stack<T> {
    pub data: Vec<T>,
}

/// An empty stack.
pub fn stack<T>() -> (r: Stack<T>)
    ensures
        r.pushed() == Seq::<T>::empty(),
        r.held() == Seq::<T>::empty(),
{
    Stack { data: Vec::new() }
}

impl<T> Push<T> for Stack<T> {
    open spec fn pushed(&self) -> Seq<T> {
        self.data@
    }

    fn push(self, val: T) -> (r: Self) {
        let mut s = self;
        s.data.push(val);
        s
    }
}

impl<T> Pop<T> for Stack<T> {
    open spec fn held(&self) -> Seq<T> {
        self.data@
    }

    /// The most recently pushed item.
    open spec fn next_out(&self) -> int {
        self.data@.len() - 1
    }

    fn pop(self) -> (r: (Option<T>, Self)) {
        let mut s = self;
        let popped = s.data.pop();
        proof {
            if self.data@.len() > 0 {
                assert(s.data@ =~= self.data@.remove(self.data@.len() - 1));
            }
        }
        (popped, s)
    }
}

/// A first-in, first-out queue.
#[derive(Debug, Clone)]
pub struct Queue<T> {
    pub data: Vec<T>,
}

/// An empty queue.
pub fn queue<T>() -> (r: Queue<T>)
    ensures
        r.pushed() == Seq::<T>::empty(),
        r.held() == Seq::<T>::empty(),
{
    Queue { data: Vec::new() }
}

impl<T> Push<T> for Queue<T> {
    open spec fn pushed(&self) -> Seq<T> {
        self.data@
    }

    fn push(self, val: T) -> (r: Self) {
        let mut s = self;
        s.data.push(val);
        s
    }
}

impl<T> Pop<T> for Queue<T> {
    open spec fn held(&self) -> Seq<T> {
        self.data@
    }

    /// The earliest pushed item.
    open spec fn next_out(&self) -> int {
        0
    }

    fn pop(self) -> (r: (Option<T>, Self)) {
        let mut s = self;
        if s.data.len() == 0 {
            (None, s)
        } else {
            let popped = s.data.remove(0);
            (Some(popped), s)
        }
    }
}

} // verus!
