use vstd::prelude::*;

verus! {

/// A prize of the lottery: `count` identical items under one name.
pub struct Prize {
    name: String,
    count: usize,
}

/// Builds a [`Prize`]; by default the name is empty and the count is one.
pub struct PrizeBuilder {
    name: String,
    count: usize,
}

impl Prize {
    /// The name, as characters.
    pub closed spec fn name_view(&self) -> Seq<char> {
        self.name@
    }

    /// How many items of this prize are handed out.
    pub closed spec fn count_view(&self) -> nat {
        self.count as nat
    }

    pub proof fn lemma_count_fits(&self)
        ensures
            self.count_view() <= usize::MAX,
    {
    }

    pub fn new(name: String, count: usize) -> (p: Self)
        ensures
            p.name_view() == name@,
            p.count_view() == count,
    {
        Self { name, count }
    }

    pub fn name(&self) -> (r: &str)
        ensures
            r@ == self.name_view(),
    {
        self.name.as_str()
    }

    pub fn count(&self) -> (r: usize)
        ensures
            r == self.count_view(),
    {
        self.count
    }
}

impl PrizeBuilder {
    pub closed spec fn name_view(&self) -> Seq<char> {
        self.name@
    }

    pub closed spec fn count_view(&self) -> nat {
        self.count as nat
    }

    pub fn new() -> (b: Self)
        ensures
            b.name_view() == Seq::<char>::empty(),
            b.count_view() == 1,
    {
        Self { name: String::new(), count: 1 }
    }

    pub fn name(self, name: String) -> (b: Self)
        ensures
            b.name_view() == name@,
            b.count_view() == self.count_view(),
    {
        let mut this = self;
        this.name = name;
        this
    }

    pub fn count(self, count: usize) -> (b: Self)
        ensures
            b.name_view() == self.name_view(),
            b.count_view() == count,
    {
        let mut this = self;
        this.count = count;
        this
    }

    pub fn build(self) -> (p: Prize)
        ensures
            p.name_view() == self.name_view(),
            p.count_view() == self.count_view(),
    {
        Prize { name: self.name, count: self.count }
    }
}

} // verus!
