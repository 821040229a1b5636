use vstd::prelude::*;

verus! {

/// The academic term a registrar query asks about.
#[derive(Clone, Copy, Debug, PartialEq, Eq, Structural)]
pub enum Semister {
    Spring,
    Summer,
    Fall,
    Winter,
}

/// Which part of the school a registrar query asks about.
#[derive(Clone, Copy, Debug, PartialEq, Eq, Structural)]
pub enum Organization {
    UnderGraduate,
    Graduate,
}

/// A registrar catalog query under construction: the year, the term, and
/// the organization it asks about.
#[derive(Clone, Copy, Debug)]
pub struct SubjectQuery {
    pub year: u32,
    pub semister: Semister,
    pub organization: Organization,
}

impl SubjectQuery {
    /// A query for the given year, initially for the spring undergraduate
    /// catalog.
    pub fn new(year: u32) -> (r: SubjectQuery)
        ensures
            r.year == year,
            r.semister == Semister::Spring,
            r.organization == Organization::UnderGraduate,
    {
        SubjectQuery { year, semister: Semister::Spring, organization: Organization::UnderGraduate }
    }

    pub fn spring(self) -> (r: SubjectQuery)
        ensures
            r.year == self.year,
            r.semister == Semister::Spring,
            r.organization == self.organization,
    {
        SubjectQuery { semister: Semister::Spring, ..self }
    }

    pub fn summer(self) -> (r: SubjectQuery)
        ensures
            r.year == self.year,
            r.semister == Semister::Summer,
            r.organization == self.organization,
    {
        SubjectQuery { semister: Semister::Summer, ..self }
    }

    pub fn fall(self) -> (r: SubjectQuery)
        ensures
            r.year == self.year,
            r.semister == Semister::Fall,
            r.organization == self.organization,
    {
        SubjectQuery { semister: Semister::Fall, ..self }
    }

    pub fn winter(self) -> (r: SubjectQuery)
        ensures
            r.year == self.year,
            r.semister == Semister::Winter,
            r.organization == self.organization,
    {
        SubjectQuery { semister: Semister::Winter, ..self }
    }

    #[allow(non_snake_case)]
    pub fn underGraduate(self) -> (r: SubjectQuery)
        ensures
            r.year == self.year,
            r.semister == self.semister,
            r.organization == Organization::UnderGraduate,
    {
        SubjectQuery { organization: Organization::UnderGraduate, ..self }
    }

    pub fn undergraduate(self) -> (r: SubjectQuery)
        ensures
            r.year == self.year,
            r.semister == self.semister,
            r.organization == Organization::UnderGraduate,
    {
        SubjectQuery { organization: Organization::UnderGraduate, ..self }
    }

    pub fn graduate(self) -> (r: SubjectQuery)
        ensures
            r.year == self.year,
            r.semister == self.semister,
            r.organization == Organization::Graduate,
    {
        SubjectQuery { organization: Organization::Graduate, ..self }
    }

    /// The registrar's parameter value for the organization this query asks
    /// about.
    pub fn organization_code(&self) -> (r: &'static str)
        ensures
            self.organization == Organization::UnderGraduate ==> r@ == "CMN12.03"@,
            self.organization == Organization::Graduate ==> r@ == "CMN12.02"@,
    {
        match self.organization {
            Organization::UnderGraduate => "CMN12.03",
            Organization::Graduate => "CMN12.02",
        }
    }

    /// The registrar's parameter value for the term this query asks about.
    pub fn semister_code(&self) -> (r: &'static str)
        ensures
            self.semister == Semister::Spring ==> r@ == "CMN17.10"@,
            self.semister == Semister::Summer ==> r@ == "CMN17.11"@,
            self.semister == Semister::Fall ==> r@ == "CMN17.20"@,
            self.semister == Semister::Winter ==> r@ == "CMN17.21"@,
    {
        match self.semister {
            Semister::Spring => "CMN17.10",
            Semister::Summer => "CMN17.11",
            Semister::Fall => "CMN17.20",
            Semister::Winter => "CMN17.21",
        }
    }
}

} // verus!
