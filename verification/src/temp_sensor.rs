use vstd::prelude::*;

verus! {

/// One reading delivered by the sensor, in thousandths of a percent and
/// thousandths of a degree Celsius.
pub struct Measurement {
    pub humidity: i64,
    pub temperature: i64,
}

/// Handle on the remote sensor endpoint. The engine never talks to the
/// network itself; the polling loop around the library reads the URL back
/// through [`TempSensor::url`] and hands the extracted reading to the store.
pub struct TempSensor {
    url: String,
}

impl TempSensor {
    /// The configured endpoint, as a sequence of characters.
    pub closed spec fn url_view(&self) -> Seq<char> {
        self.url@
    }

    pub fn new(url: &String) -> (sensor: Self)
        ensures
            sensor.url_view() == url@,
    {
        Self { url: url.clone() }
    }

    pub fn url(&self) -> (r: &String)
        ensures
            r@ == self.url_view(),
    {
        &self.url
    }
}

} // verus!
