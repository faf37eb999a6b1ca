//! The age table of one community and its yearly step.
use crate::rate::lemma_rate_of_one_or_more_keeps_the_largest_count;
use crate::rate::lemma_zero_rate_scales_to_nobody;
use crate::rate::Rate;
use vstd::prelude::*;

verus! {

/// The number of ages that a table holds: nobody lives past the last of them.
pub const MAX_LIFESPAN: usize = 120;

/// The sum of a sequence of counts, as a natural number.
pub open spec fn total(counts: Seq<u64>) -> nat
    decreases counts.len(),
{
    if counts.len() == 0 {
        0
    } else {
        total(counts.drop_last()) + counts.last() as nat
    }
}

/// Taking one more count adds it to the sum.
pub proof fn lemma_total_grows(counts: Seq<u64>, n: int)
    requires
        0 <= n < counts.len(),
    ensures
        total(counts.take(n + 1)) == total(counts.take(n)) + counts[n],
{
    assert(counts.take(n + 1).drop_last() =~= counts.take(n));
}

/// The counts at the front of a sequence sum to no more than all of them.
pub proof fn lemma_total_of_part(counts: Seq<u64>, n: int)
    requires
        0 <= n <= counts.len(),
    ensures
        total(counts.take(n)) <= total(counts),
    decreases counts.len() - n,
{
    if n < counts.len() {
        lemma_total_grows(counts, n);
        lemma_total_of_part(counts, n + 1);
    } else {
        assert(counts.take(n) =~= counts);
    }
}

/// What an age table holds: for each age the number of people of that age,
/// and the rates at which people of that age give birth and die.
pub struct AgesView {
    pub counts: Seq<u64>,
    pub birth_rates: Seq<Rate>,
    pub death_rates: Seq<Rate>,
}

impl AgesView {
    /// Each of the three columns has one entry for every age.
    pub open spec fn well_formed(self) -> bool {
        &&& self.counts.len() == MAX_LIFESPAN
        &&& self.birth_rates.len() == MAX_LIFESPAN
        &&& self.death_rates.len() == MAX_LIFESPAN
    }

    /// The children born in a year to the people of one age.
    pub open spec fn births_at(self, age: int) -> u64 {
        self.birth_rates[age].scaled(self.counts[age])
    }

    /// The people of one age who die within a year.
    pub open spec fn deaths_at(self, age: int) -> u64 {
        self.death_rates[age].scaled(self.counts[age])
    }

    /// The children born in a year to all the people younger than `age`.
    pub open spec fn births_below(self, age: nat) -> nat
        decreases age,
    {
        if age == 0 {
            0
        } else {
            self.births_below((age - 1) as nat) + self.births_at(age - 1) as nat
        }
    }

    /// The number of people of age 0 after a year: all the children born,
    /// or as many as a count can hold.
    pub open spec fn newborns(self) -> u64 {
        if self.births_below(MAX_LIFESPAN as nat) >= u64::MAX {
            u64::MAX
        } else {
            self.births_below(MAX_LIFESPAN as nat) as u64
        }
    }

    /// The people of one age who are alive a year later; none, where more
    /// would die than there are.
    pub open spec fn survivors(self, age: int) -> u64 {
        if self.deaths_at(age) >= self.counts[age] {
            0
        } else {
            (self.counts[age] - self.deaths_at(age)) as u64
        }
    }

    /// The table a year later. The newborns take age 0, the survivors of
    /// each age move up by one, and those of the last age are gone. The
    /// rates stay as they are.
    pub open spec fn step_year(self) -> AgesView {
        AgesView {
            counts: Seq::new(
                MAX_LIFESPAN as nat,
                |age: int|
                    if age == 0 {
                        self.newborns()
                    } else {
                        self.survivors(age - 1)
                    },
            ),
            birth_rates: self.birth_rates,
            death_rates: self.death_rates,
        }
    }

    /// The table after the given number of yearly steps.
    pub open spec fn after_years(self, years: nat) -> AgesView
        decreases years,
    {
        if years == 0 {
            self
        } else {
            self.after_years((years - 1) as nat).step_year()
        }
    }

    /// The number of people of all ages together.
    pub open spec fn population(self) -> nat {
        total(self.counts)
    }
}

/// Nobody is born to the youngest ages of a table that holds nobody there.
pub proof fn lemma_nobody_bears_nobody(ages: AgesView, age: nat)
    requires
        forall|i: int| 0 <= i < age ==> ages.counts[i] == 0,
    ensures
        ages.births_below(age) == 0,
    decreases age,
{
    if age > 0 {
        lemma_nobody_bears_nobody(ages, (age - 1) as nat);
    }
}

/// The children born to the people below some age are not more than those
/// born to the people below a higher age.
pub proof fn lemma_births_accumulate(ages: AgesView, lower: nat, upper: nat)
    requires
        lower <= upper,
    ensures
        ages.births_below(lower) <= ages.births_below(upper),
    decreases upper,
{
    if lower < upper {
        lemma_births_accumulate(ages, lower, (upper - 1) as nat);
    }
}

/// A table that holds nobody holds nobody after any number of years,
/// whatever its birth and death rates are.
pub proof fn lemma_empty_table_stays_empty(ages: AgesView, years: nat)
    requires
        ages.well_formed(),
        forall|age: int| 0 <= age < MAX_LIFESPAN ==> ages.counts[age] == 0,
    ensures
        ages.after_years(years) == ages,
    decreases years,
{
    if years > 0 {
        lemma_empty_table_stays_empty(ages, (years - 1) as nat);
        lemma_nobody_bears_nobody(ages, MAX_LIFESPAN as nat);
        assert(ages.step_year().counts =~= ages.counts);
    }
}

/// A table that is full at every age stays full: where every age holds
/// the largest count, no death rate is other than zero and some birth rate
/// is one or more, a year changes nothing, and neither do any number of
/// years.
pub proof fn lemma_full_table_stays_full(ages: AgesView, fertile: int, years: nat)
    requires
        ages.well_formed(),
        forall|age: int| 0 <= age < MAX_LIFESPAN ==> ages.counts[age] == u64::MAX,
        forall|age: int| 0 <= age < MAX_LIFESPAN ==> (#[trigger] ages.death_rates[age]).is_zero(),
        0 <= fertile < MAX_LIFESPAN,
        ages.birth_rates[fertile].is_one_or_more(),
    ensures
        ages.after_years(years) == ages,
    decreases years,
{
    if years > 0 {
        lemma_full_table_stays_full(ages, fertile, (years - 1) as nat);
        lemma_rate_of_one_or_more_keeps_the_largest_count(ages.birth_rates[fertile]);
        lemma_births_accumulate(ages, (fertile + 1) as nat, MAX_LIFESPAN as nat);
        assert forall|age: int| 0 <= age < MAX_LIFESPAN implies ages.survivors(age)
            == u64::MAX by {
            lemma_zero_rate_scales_to_nobody(ages.death_rates[age], ages.counts[age]);
        }
        assert(ages.step_year().counts =~= ages.counts);
    }
}

/// The people of one community by age, with the birth and death rate of
/// each age.
#[derive(Clone, Debug, PartialEq)]
pub struct Ages {
    counts: [u64; MAX_LIFESPAN],
    birth_rates: [Rate; MAX_LIFESPAN],
    death_rates: [Rate; MAX_LIFESPAN],
}

impl View for Ages {
    type V = AgesView;

    closed spec fn view(&self) -> AgesView {
        AgesView {
            counts: self.counts@,
            birth_rates: self.birth_rates@,
            death_rates: self.death_rates@,
        }
    }
}

impl Ages {
    /// A table with the given counts and rates.
    pub fn new(
        counts: [u64; MAX_LIFESPAN],
        birth_rates: [Rate; MAX_LIFESPAN],
        death_rates: [Rate; MAX_LIFESPAN],
    ) -> (ages: Ages)
        ensures
            ages@.counts == counts@,
            ages@.birth_rates == birth_rates@,
            ages@.death_rates == death_rates@,
            ages@.well_formed(),
    {
        Ages { counts, birth_rates, death_rates }
    }

    /// Every table has one entry for every age in each of its columns.
    pub proof fn lemma_well_formed(self)
        ensures
            self@.well_formed(),
    {
    }

    /// The number of people of each age.
    pub fn counts(&self) -> (counts: &[u64; MAX_LIFESPAN])
        ensures
            counts@ == self@.counts,
    {
        &self.counts
    }

    /// The birth rate of each age.
    pub fn birth_rates(&self) -> (rates: &[Rate; MAX_LIFESPAN])
        ensures
            rates@ == self@.birth_rates,
    {
        &self.birth_rates
    }

    /// The death rate of each age.
    pub fn death_rates(&self) -> (rates: &[Rate; MAX_LIFESPAN])
        ensures
            rates@ == self@.death_rates,
    {
        &self.death_rates
    }

    /// The number of people of all ages together, where a count can hold
    /// it.
    pub fn population(&self) -> (people: Option<u64>)
        ensures
            self@.population() <= u64::MAX ==> people == Some(self@.population() as u64),
            self@.population() > u64::MAX ==> people.is_none(),
    {
        let mut sum: u64 = 0;
        let mut age: usize = 0;
        while age < MAX_LIFESPAN
            invariant
                age <= MAX_LIFESPAN,
                sum == total(self.counts@.take(age as int)),
            decreases MAX_LIFESPAN - age,
        {
            proof {
                lemma_total_grows(self.counts@, age as int);
                lemma_total_of_part(self.counts@, age + 1);
            }
            if self.counts[age] > u64::MAX - sum {
                return None;
            }
            sum = sum + self.counts[age];
            age += 1;
        }
        assert(self.counts@.take(MAX_LIFESPAN as int) =~= self.counts@);
        Some(sum)
    }

    /// Moves the table on by one year.
    pub fn step_year(&mut self)
        ensures
            final(self)@ == old(self)@.step_year(),
    {
        let mut newborns: u64 = 0;
        let mut age: usize = 0;
        while age < MAX_LIFESPAN
            invariant
                age <= MAX_LIFESPAN,
                *self == *old(self),
                self@.births_below(age as nat) >= u64::MAX ==> newborns == u64::MAX,
                self@.births_below(age as nat) < u64::MAX ==> newborns == self@.births_below(
                    age as nat,
                ),
            decreases MAX_LIFESPAN - age,
        {
            let births: u64 = self.birth_rates[age].scale(self.counts[age]);
            newborns = newborns.saturating_add(births);
            age += 1;
        }
        let mut counts: [u64; MAX_LIFESPAN] = [0; MAX_LIFESPAN];
        counts[0] = newborns;
        let mut age: usize = 1;
        while age < MAX_LIFESPAN
            invariant
                1 <= age <= MAX_LIFESPAN,
                *self == *old(self),
                counts@[0] == self@.newborns(),
                forall|i: int| 1 <= i < age ==> counts@[i] == self@.survivors(i - 1),
            decreases MAX_LIFESPAN - age,
        {
            let before: u64 = self.counts[age - 1];
            let deaths: u64 = self.death_rates[age - 1].scale(before);
            counts[age] = before.saturating_sub(deaths);
            age += 1;
        }
        self.counts = counts;
        assert(self@.counts =~= old(self)@.step_year().counts);
    }
}

} // verus!
