//! A community: one culture, one age table, and the head count of the
//! table.
use crate::ages::total;
use crate::ages::Ages;
use crate::ages::AgesView;
use vstd::prelude::*;

verus! {

/// The name of a community among the communities of a world. Whoever owns
/// the communities hands the numbers out.
#[derive(Clone, Copy, Debug, PartialEq, Eq, PartialOrd, Ord, Hash)]
pub struct CommunityId(pub u32);

/// What a community holds.
pub struct CommunityView<C> {
    pub id: CommunityId,
    pub culture: C,
    pub ages: AgesView,
}

impl<C> CommunityView<C> {
    /// The number of people of the community: the sum of its age table.
    pub open spec fn population(self) -> nat {
        self.ages.population()
    }
}

/// The smallest unit of population: people of one culture, counted by age.
///
/// The culture is whatever the owner of the community takes it to be; the
/// community keeps it and hands it back. The head count is kept beside the
/// age table and always agrees with it.
#[derive(Debug, PartialEq)]
pub struct Community<C> {
    id: CommunityId,
    culture: C,
    population: u64,
    ages: Ages,
}

impl<C> View for Community<C> {
    type V = CommunityView<C>;

    closed spec fn view(&self) -> CommunityView<C> {
        CommunityView { id: self.id, culture: self.culture, ages: self.ages@ }
    }
}

impl<C> Community<C> {
    #[verifier::type_invariant]
    spec fn population_is_current(self) -> bool {
        self.population == self.ages@.population()
    }

    /// A community of the given culture and ages. Its head count is taken
    /// from the age table, which has to hold no more people than a count
    /// can express.
    pub fn new(id: CommunityId, culture: C, ages: Ages) -> (community: Community<C>)
        requires
            ages@.population() <= u64::MAX,
        ensures
            community@ == (CommunityView { id, culture, ages: ages@ }),
            community@.population() == total(ages@.counts),
    {
        let population: u64 = ages.population().unwrap();
        Community { id, culture, population, ages }
    }

    /// The name of the community.
    pub fn id(&self) -> (id: &CommunityId)
        ensures
            *id == self@.id,
    {
        &self.id
    }

    /// The culture of the community.
    pub fn culture(&self) -> (culture: &C)
        ensures
            *culture == self@.culture,
    {
        &self.culture
    }

    /// The age table of the community.
    pub fn ages(&self) -> (ages: &Ages)
        ensures
            ages@ == self@.ages,
    {
        &self.ages
    }

    /// The number of people of the community.
    pub fn population(&self) -> (people: u64)
        ensures
            people == self@.population(),
    {
        proof {
            use_type_invariant(self);
        }
        self.population
    }
}

} // verus!
