use vstd::prelude::*;
use crate::chars::push_str;

verus! {

/// The endpoint of JPL's Horizons ephemeris service.
pub const HORIZONS_URL: &'static str = "https://ssd.jpl.nasa.gov/api/horizons.api";

/// The query up to the body's code.
pub const QUERY_HEAD: &'static str = "?format=json&COMMAND='";

/// The rest of the query: observer ephemeris from the Earth's centre, hourly
/// over one day, with astrometric position and range.
pub const QUERY_TAIL: &'static str = "'&OBJ_DATA='YES'&MAKE_EPHEM='YES'&EPHEM_TYPE='OBSERVER'&CENTER='399'&START_TIME='2024-09-07'&STOP_TIME='2024-09-08'&STEP_SIZE='1%20h'&QUANTITIES='1,20'";

/// Horizons' code for the Moon.
pub const MOON: &'static str = "301";

/// Horizons' code for the Sun.
pub const SUN: &'static str = "10";

/// Builds the Horizons queries whose answers the parser reads.
pub struct NasaClient {
    horizons_url: String,
}

impl NasaClient {
    /// The endpoint that queries go to.
    pub closed spec fn url(&self) -> Seq<char> {
        self.horizons_url@
    }

    /// A client of the public Horizons endpoint.
    pub fn new() -> (r: NasaClient)
        ensures
            r.url() == HORIZONS_URL@,
    {
        NasaClient { horizons_url: HORIZONS_URL.to_owned() }
    }

    /// The query for the observer ephemeris of body `command`.
    pub fn query_url(&self, command: &str) -> (r: String)
        ensures
            r@ == self.url() + QUERY_HEAD@ + command@ + QUERY_TAIL@,
    {
        let mut url = self.horizons_url.clone();
        push_str(&mut url, QUERY_HEAD);
        push_str(&mut url, command);
        push_str(&mut url, QUERY_TAIL);
        url
    }

    /// The query for the Moon's position.
    pub fn moon_query_url(&self) -> (r: String)
        ensures
            r@ == self.url() + QUERY_HEAD@ + MOON@ + QUERY_TAIL@,
    {
        self.query_url(MOON)
    }

    /// The query for the Sun's position.
    pub fn sun_query_url(&self) -> (r: String)
        ensures
            r@ == self.url() + QUERY_HEAD@ + SUN@ + QUERY_TAIL@,
    {
        self.query_url(SUN)
    }
}

} // verus!
