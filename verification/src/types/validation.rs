use vstd::prelude::*;
use vstd::string::StringExecFns;
use crate::utils::{decimal, decimal_of};
use super::others::{LIMIT, MAX_ROUTES, MAX_STOPS};
use super::problem_instance::{client_ok, row_ok, vehicle_ok, ProblemInstance};

verus! {

/// Why an instance cannot be searched.
#[derive(Debug, Clone, Copy, PartialEq, Eq, Structural)]
pub enum ValidationError {
    /// The row `index` of the travel times has not one entry per client.
    DistanceVector { expected: usize, index: usize },
    /// The fleet is empty.
    NoVehicles,
    /// There is no client, not even the depot.
    NoClients,
    /// The travel times have not one row per client.
    DistanceRows { expected: usize, found: usize },
    /// The depot is not one of the clients.
    SourceOutOfRange,
    /// A scalar, the number of clients or the size of the fleet is beyond
    /// the limits.
    TooLarge,
    /// A client or a vehicle does not carry its index as id.
    NotInitialised,
    /// A time window ends before it starts.
    InvalidWindow,
    /// The depot has a demand.
    DepotDemand,
}

impl ValidationError {
    /// The fault in words.
    pub open spec fn text(self) -> Seq<char> {
        match self {
            ValidationError::DistanceVector { expected, index } => "Expected distance vector of "@
                + decimal_of(expected as nat) + " on index "@ + decimal_of(index as nat),
            ValidationError::NoVehicles => "You must specify at least one vehicle"@,
            ValidationError::NoClients => "You must specify some clients"@,
            ValidationError::DistanceRows { expected, found } => "Expected "@ + decimal_of(
                expected as nat,
            ) + " distance vectors, found "@ + decimal_of(found as nat),
            ValidationError::SourceOutOfRange => "The source is not one of the clients"@,
            ValidationError::TooLarge => "A value or a count is beyond the limits"@,
            ValidationError::NotInitialised => "The instance is not initialised"@,
            ValidationError::InvalidWindow => "A time window ends before it starts"@,
            ValidationError::DepotDemand => "The source must have no demand"@,
        }
    }

    /// Says in words what the fault is.
    pub fn message(&self) -> (r: String)
        ensures
            r@ == self.text(),
    {
        match self {
            ValidationError::DistanceVector { expected, index } => {
                let mut text = "Expected distance vector of ".to_owned();
                text.append(decimal(*expected).as_str());
                text.append(" on index ");
                text.append(decimal(*index).as_str());
                text
            },
            ValidationError::NoVehicles => "You must specify at least one vehicle".to_owned(),
            ValidationError::NoClients => "You must specify some clients".to_owned(),
            ValidationError::DistanceRows { expected, found } => {
                let mut text = "Expected ".to_owned();
                text.append(decimal(*expected).as_str());
                text.append(" distance vectors, found ");
                text.append(decimal(*found).as_str());
                text
            },
            ValidationError::SourceOutOfRange => "The source is not one of the clients".to_owned(),
            ValidationError::TooLarge => "A value or a count is beyond the limits".to_owned(),
            ValidationError::NotInitialised => "The instance is not initialised".to_owned(),
            ValidationError::InvalidWindow => "A time window ends before it starts".to_owned(),
            ValidationError::DepotDemand => "The source must have no demand".to_owned(),
        }
    }
}

impl ProblemInstance {
    /// Row `i` of the travel times has not one entry per client.
    pub open spec fn bad_row(&self, i: int) -> bool {
        0 <= i < self.distances.len() && self.distances@[i].len() != self.clients.len()
    }

    /// Row `i` is the first that has not one entry per client.
    pub open spec fn first_bad_row(&self, i: int) -> bool {
        self.bad_row(i) && forall|k: int| 0 <= k < i ==> !self.bad_row(k)
    }

    /// Every scalar is at most `LIMIT`, there are fewer than `MAX_STOPS`
    /// clients and at most `MAX_ROUTES` vehicles.
    pub open spec fn within_limits(&self) -> bool {
        &&& self.clients.len() < MAX_STOPS
        &&& self.vehicles.len() <= MAX_ROUTES
        &&& self.deviation_penalty <= LIMIT
        &&& self.allowed_deviation <= LIMIT
        &&& forall|i: int, j: int|
            0 <= i < self.distances.len() && 0 <= j < self.distances@[i].len()
                ==> #[trigger] self.distances@[i]@[j] <= LIMIT
        &&& forall|v: int|
            0 <= v < self.vehicles.len() ==> {
                &&& (#[trigger] self.vehicles@[v]).capacity <= LIMIT
                &&& self.vehicles@[v].fixed_cost <= LIMIT
                &&& self.vehicles@[v].variable_cost <= LIMIT
            }
        &&& forall|c: int|
            0 <= c < self.clients.len() ==> {
                &&& (#[trigger] self.clients@[c]).demand <= LIMIT
                &&& self.clients@[c].service_time <= LIMIT
                &&& self.clients@[c].latest <= LIMIT
            }
    }

    /// Every client and every vehicle carries its index as id.
    pub open spec fn ids_set(&self) -> bool {
        &&& forall|v: int| 0 <= v < self.vehicles.len() ==> (#[trigger] self.vehicles@[v]).id == v
        &&& forall|c: int| 0 <= c < self.clients.len() ==> (#[trigger] self.clients@[c]).id == c
    }

    /// No time window ends before it starts.
    pub open spec fn windows_ordered(&self) -> bool {
        forall|c: int|
            0 <= c < self.clients.len() ==> (#[trigger] self.clients@[c]).earliest
                <= self.clients@[c].latest
    }

    /// The verdict on the instance: the first of the faults, in the order of
    /// `ValidationError`, or none.
    pub open spec fn validation(&self) -> Result<(), ValidationError> {
        let n = self.clients.len();
        if exists|i: int| self.bad_row(i) {
            Err(
                ValidationError::DistanceVector {
                    expected: n,
                    index: (choose|i: int| self.first_bad_row(i)) as usize,
                },
            )
        } else if self.vehicles.len() == 0 {
            Err(ValidationError::NoVehicles)
        } else if n == 0 {
            Err(ValidationError::NoClients)
        } else if self.distances.len() != n {
            Err(ValidationError::DistanceRows { expected: n, found: self.distances.len() })
        } else if self.source >= n {
            Err(ValidationError::SourceOutOfRange)
        } else if !self.within_limits() {
            Err(ValidationError::TooLarge)
        } else if !self.ids_set() {
            Err(ValidationError::NotInitialised)
        } else if !self.windows_ordered() {
            Err(ValidationError::InvalidWindow)
        } else if self.clients@[self.source as int].demand != 0 {
            Err(ValidationError::DepotDemand)
        } else {
            Ok(())
        }
    }

    /// An instance passes validation exactly if it is well formed.
    pub proof fn lemma_valid_is_wf(&self)
        ensures
            self.validation() is Ok <==> self.wf(),
    {
        let n = self.clients.len() as int;
        if self.validation() is Ok {
            assert forall|i: int| 0 <= i < self.distances.len() implies row_ok(
                #[trigger] self.distances@[i]@,
                n,
            ) by {
                assert(!self.bad_row(i));
                assert forall|j: int| 0 <= j < n implies #[trigger] self.distances@[i]@[j]
                    <= LIMIT by {}
            }
            assert forall|v: int| 0 <= v < self.vehicles.len() implies vehicle_ok(
                #[trigger] self.vehicles@[v],
                v,
            ) by {}
            assert forall|c: int| 0 <= c < self.clients.len() implies client_ok(
                #[trigger] self.clients@[c],
                c,
            ) by {}
        }
        if self.wf() {
            assert forall|i: int| !self.bad_row(i) by {
                if 0 <= i < self.distances.len() {
                    assert(row_ok(self.distances@[i]@, n));
                }
            }
            assert forall|i: int, j: int|
                0 <= i < self.distances.len() && 0 <= j < self.distances@[i].len()
                    implies #[trigger] self.distances@[i]@[j] <= LIMIT by {
                assert(row_ok(self.distances@[i]@, n));
            }
            assert forall|v: int| 0 <= v < self.vehicles.len() implies {
                &&& (#[trigger] self.vehicles@[v]).capacity <= LIMIT
                &&& self.vehicles@[v].fixed_cost <= LIMIT
                &&& self.vehicles@[v].variable_cost <= LIMIT
                &&& self.vehicles@[v].id == v
            } by {
                assert(vehicle_ok(self.vehicles@[v], v));
            }
            assert forall|c: int| 0 <= c < self.clients.len() implies {
                &&& (#[trigger] self.clients@[c]).demand <= LIMIT
                &&& self.clients@[c].service_time <= LIMIT
                &&& self.clients@[c].latest <= LIMIT
                &&& self.clients@[c].id == c
                &&& self.clients@[c].earliest <= self.clients@[c].latest
            } by {
                assert(client_ok(self.clients@[c], c));
            }
        }
    }

    /// The first row of the travel times that has not one entry per client.
    fn find_bad_row(&self) -> (r: Option<usize>)
        ensures
            match r {
                Some(i) => self.first_bad_row(i as int),
                None => forall|i: int| !self.bad_row(i),
            },
    {
        let node_count = self.clients.len();
        let mut index: usize = 0;
        while index < self.distances.len()
            invariant
                index <= self.distances.len(),
                node_count == self.clients.len(),
                forall|k: int| 0 <= k < index ==> !self.bad_row(k),
            decreases self.distances.len() - index,
        {
            if self.distances[index].len() != node_count {
                return Some(index);
            }
            index += 1;
        }
        None
    }

    /// Whether every scalar and both counts are within the limits.
    fn check_limits(&self) -> (r: bool)
        ensures
            r == self.within_limits(),
    {
        if self.clients.len() >= MAX_STOPS || self.vehicles.len() > MAX_ROUTES
            || self.deviation_penalty > LIMIT as u128 || self.allowed_deviation > LIMIT {
            return false;
        }
        let mut i: usize = 0;
        while i < self.distances.len()
            invariant
                i <= self.distances.len(),
                forall|a: int, b: int|
                    0 <= a < i && 0 <= b < self.distances@[a].len()
                        ==> #[trigger] self.distances@[a]@[b] <= LIMIT,
            decreases self.distances.len() - i,
        {
            let row = &self.distances[i];
            let mut j: usize = 0;
            while j < row.len()
                invariant
                    i < self.distances.len(),
                    row == self.distances@[i as int],
                    j <= row.len(),
                    forall|b: int| 0 <= b < j ==> #[trigger] row@[b] <= LIMIT,
                decreases row.len() - j,
            {
                if row[j] > LIMIT {
                    assert(self.distances@[i as int]@[j as int] > LIMIT);
                    return false;
                }
                j += 1;
            }
            i += 1;
        }
        let mut v: usize = 0;
        while v < self.vehicles.len()
            invariant
                v <= self.vehicles.len(),
                forall|k: int|
                    0 <= k < v ==> {
                        &&& (#[trigger] self.vehicles@[k]).capacity <= LIMIT
                        &&& self.vehicles@[k].fixed_cost <= LIMIT
                        &&& self.vehicles@[k].variable_cost <= LIMIT
                    },
            decreases self.vehicles.len() - v,
        {
            let vehicle = &self.vehicles[v];
            if vehicle.capacity > LIMIT || vehicle.fixed_cost > LIMIT as u128
                || vehicle.variable_cost > LIMIT as u128 {
                return false;
            }
            v += 1;
        }
        let mut c: usize = 0;
        while c < self.clients.len()
            invariant
                c <= self.clients.len(),
                forall|k: int|
                    0 <= k < c ==> {
                        &&& (#[trigger] self.clients@[k]).demand <= LIMIT
                        &&& self.clients@[k].service_time <= LIMIT
                        &&& self.clients@[k].latest <= LIMIT
                    },
            decreases self.clients.len() - c,
        {
            let client = &self.clients[c];
            if client.demand > LIMIT || client.service_time > LIMIT || client.latest > LIMIT {
                return false;
            }
            c += 1;
        }
        true
    }

    /// Whether every client and every vehicle carries its index as id.
    fn check_ids(&self) -> (r: bool)
        ensures
            r == self.ids_set(),
    {
        let mut v: usize = 0;
        while v < self.vehicles.len()
            invariant
                v <= self.vehicles.len(),
                forall|k: int| 0 <= k < v ==> (#[trigger] self.vehicles@[k]).id == k,
            decreases self.vehicles.len() - v,
        {
            if self.vehicles[v].id != v {
                return false;
            }
            v += 1;
        }
        let mut c: usize = 0;
        while c < self.clients.len()
            invariant
                c <= self.clients.len(),
                forall|k: int| 0 <= k < c ==> (#[trigger] self.clients@[k]).id == k,
            decreases self.clients.len() - c,
        {
            if self.clients[c].id != c {
                return false;
            }
            c += 1;
        }
        true
    }

    /// Whether no time window ends before it starts.
    fn check_windows(&self) -> (r: bool)
        ensures
            r == self.windows_ordered(),
    {
        let mut c: usize = 0;
        while c < self.clients.len()
            invariant
                c <= self.clients.len(),
                forall|k: int|
                    0 <= k < c ==> (#[trigger] self.clients@[k]).earliest
                        <= self.clients@[k].latest,
            decreases self.clients.len() - c,
        {
            if self.clients[c].earliest > self.clients[c].latest {
                return false;
            }
            c += 1;
        }
        true
    }

    /// Checks the instance and names its first fault. An instance passes
    /// exactly if it is well formed.
    pub fn validate(&self) -> (r: Result<(), ValidationError>)
        ensures
            r == self.validation(),
            r is Ok <==> self.wf(),
    {
        proof {
            self.lemma_valid_is_wf();
        }
        let node_count = self.clients.len();
        match self.find_bad_row() {
            Some(index) => {
                proof {
                    let i = choose|i: int| self.first_bad_row(i);
                    assert(self.first_bad_row(index as int));
                    assert(i == index) by {
                        if i < index {
                            assert(!self.bad_row(i));
                        }
                        if index < i {
                            assert(!self.bad_row(index as int));
                        }
                    }
                }
                return Err(ValidationError::DistanceVector { expected: node_count, index });
            },
            None => {},
        }
        if self.vehicles.len() == 0 {
            return Err(ValidationError::NoVehicles);
        }
        if self.clients.len() == 0 {
            return Err(ValidationError::NoClients);
        }
        if self.distances.len() != node_count {
            return Err(
                ValidationError::DistanceRows { expected: node_count, found: self.distances.len() },
            );
        }
        if self.source >= node_count {
            return Err(ValidationError::SourceOutOfRange);
        }
        if !self.check_limits() {
            return Err(ValidationError::TooLarge);
        }
        if !self.check_ids() {
            return Err(ValidationError::NotInitialised);
        }
        if !self.check_windows() {
            return Err(ValidationError::InvalidWindow);
        }
        if self.clients[self.source].demand != 0 {
            return Err(ValidationError::DepotDemand);
        }
        Ok(())
    }
}

} // verus!
