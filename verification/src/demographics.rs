//! The communities of one region, with the head count of all of them.
use crate::community::Community;
use crate::community::CommunityView;
use vstd::prelude::*;

verus! {

/// What each of the given communities holds, in the same order.
pub open spec fn views_of<C>(communities: Seq<Community<C>>) -> Seq<CommunityView<C>> {
    Seq::new(communities.len(), |i: int| communities[i]@)
}

/// The number of people of all the given communities together.
pub open spec fn census<C>(communities: Seq<CommunityView<C>>) -> nat
    decreases communities.len(),
{
    if communities.len() == 0 {
        0
    } else {
        census(communities.drop_last()) + communities.last().population()
    }
}

/// The culture of each of the given communities, in the same order: every
/// community once, however many people it has.
pub open spec fn cultures_of<C>(communities: Seq<CommunityView<C>>) -> Seq<C> {
    Seq::new(communities.len(), |i: int| communities[i].culture)
}

/// Taking one more community adds its people to the census.
pub proof fn lemma_census_grows<C>(communities: Seq<CommunityView<C>>, n: int)
    requires
        0 <= n < communities.len(),
    ensures
        census(communities.take(n + 1)) == census(communities.take(n))
            + communities[n].population(),
{
    assert(communities.take(n + 1).drop_last() =~= communities.take(n));
}

/// The communities at the front of a sequence hold no more people than
/// all of them.
pub proof fn lemma_census_of_part<C>(communities: Seq<CommunityView<C>>, n: int)
    requires
        0 <= n <= communities.len(),
    ensures
        census(communities.take(n)) <= census(communities),
    decreases communities.len() - n,
{
    if n < communities.len() {
        lemma_census_grows(communities, n);
        lemma_census_of_part(communities, n + 1);
    } else {
        assert(communities.take(n) =~= communities);
    }
}

/// What the demographics of a region hold.
pub struct DemographicsView<C> {
    pub communities: Seq<CommunityView<C>>,
    pub average_culture: C,
}

impl<C> DemographicsView<C> {
    /// The number of people of the region: the sum over its communities.
    pub open spec fn total_population(self) -> nat {
        census(self.communities)
    }
}

/// The communities of one region, in the order in which they were given,
/// with the culture that stands for all of them.
///
/// The head count of the region is kept beside the communities and always
/// agrees with them.
#[derive(Debug, PartialEq)]
pub struct Demographics<C> {
    communities: Vec<Community<C>>,
    total_population: u64,
    average_culture: C,
}

impl<C> View for Demographics<C> {
    type V = DemographicsView<C>;

    closed spec fn view(&self) -> DemographicsView<C> {
        DemographicsView {
            communities: views_of(self.communities@),
            average_culture: self.average_culture,
        }
    }
}

impl<C> Demographics<C> {
    #[verifier::type_invariant]
    spec fn total_is_current(self) -> bool {
        &&& self.communities@.len() > 0
        &&& self.total_population == census(views_of(self.communities@))
    }

    /// The number of people of all the given communities together, where
    /// a count can hold it.
    pub fn count_people(communities: &Vec<Community<C>>) -> (people: Option<u64>)
        ensures
            census(views_of(communities@)) <= u64::MAX ==> people == Some(
                census(views_of(communities@)) as u64,
            ),
            census(views_of(communities@)) > u64::MAX ==> people.is_none(),
    {
        let ghost views = views_of(communities@);
        let mut sum: u64 = 0;
        let mut i: usize = 0;
        while i < communities.len()
            invariant
                i <= communities.len(),
                views == views_of(communities@),
                sum == census(views.take(i as int)),
            decreases communities.len() - i,
        {
            let people: u64 = communities[i].population();
            proof {
                lemma_census_grows(views, i as int);
                lemma_census_of_part(views, i + 1);
            }
            if people > u64::MAX - sum {
                return None;
            }
            sum = sum + people;
            i += 1;
        }
        assert(views.take(communities.len() as int) =~= views);
        Some(sum)
    }

    /// The cultures that the culture of a region is blended from: that of
    /// each community once, in the order of the communities, a community
    /// of many people counting no more than one of few.
    pub fn member_cultures(communities: &Vec<Community<C>>) -> (cultures: Vec<C>) where C: Copy
        ensures
            cultures@ == cultures_of(views_of(communities@)),
    {
        let mut cultures: Vec<C> = Vec::with_capacity(communities.len());
        let mut i: usize = 0;
        while i < communities.len()
            invariant
                i <= communities.len(),
                cultures@ == cultures_of(views_of(communities@)).take(i as int),
            decreases communities.len() - i,
        {
            cultures.push(*communities[i].culture());
            i += 1;
            assert(cultures@ =~= cultures_of(views_of(communities@)).take(i as int));
        }
        assert(cultures@ =~= cultures_of(views_of(communities@)));
        cultures
    }

    /// The demographics of a region with the given communities, of which
    /// there is at least one, and with `average_culture` as the culture that
    /// stands for them all. The head count of the region is taken from the
    /// communities, which together have to hold no more people than a
    /// count can express.
    pub fn new(communities: Vec<Community<C>>, average_culture: C) -> (demographics: Demographics<
        C,
    >)
        requires
            communities@.len() > 0,
            census(views_of(communities@)) <= u64::MAX,
        ensures
            demographics@ == (DemographicsView {
                communities: views_of(communities@),
                average_culture,
            }),
            demographics@.total_population() == census(views_of(communities@)),
    {
        let total_population: u64 = Self::count_people(&communities).unwrap();
        Demographics { communities, total_population, average_culture }
    }

    /// The communities of the region, in the order in which they were
    /// given.
    pub fn communities(&self) -> (communities: &Vec<Community<C>>)
        ensures
            views_of(communities@) == self@.communities,
            communities@.len() > 0,
    {
        proof {
            use_type_invariant(self);
        }
        &self.communities
    }

    /// The number of people of the region.
    pub fn total_population(&self) -> (people: u64)
        ensures
            people == self@.total_population(),
    {
        proof {
            use_type_invariant(self);
        }
        self.total_population
    }

    /// The culture that stands for all the communities of the region.
    pub fn average_culture(&self) -> (culture: &C)
        ensures
            *culture == self@.average_culture,
    {
        &self.average_culture
    }
}

} // verus!
