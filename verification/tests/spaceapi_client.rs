use coredump_bot::spaceapi_client::{
    extract_people_now_present, PeopleNowPresentSensor, Sensors, SpaceApiClient, Status,
};

/// The sensors of a status with one counter at the location `Hackerspace`.
fn hackerspace(value: u64) -> Option<Sensors> {
    Some(Sensors {
        people_now_present: Some(vec![PeopleNowPresentSensor {
            location: Some("Hackerspace".into()),
            value,
        }]),
    })
}

#[test]
fn extract_people_now_present_0() {
    let n = extract_people_now_present(&hackerspace(0));

    assert_eq!(Ok("\nHackerspace: Coredump is closed\nNobody here right now.".into()), n);
}

#[test]
fn extract_people_now_present_6() {
    let n = extract_people_now_present(&hackerspace(6));

    assert_eq!(Ok("\nHackerspace: Coredump is open\n6 people are present!".into()), n);
}

#[test]
fn extract_people_now_present_err() {
    let e = extract_people_now_present(&Some(Sensors { people_now_present: None }));

    assert_eq!(Err("response contains no sensors.people_now_present".into()), e);
}

#[test]
fn extract_people_now_present_without_sensors() {
    assert_eq!(Err("response contains no sensors".into()), extract_people_now_present(&None));
}

#[test]
fn extract_people_now_present_of_no_counter() {
    let e = extract_people_now_present(&Some(Sensors { people_now_present: Some(vec![]) }));
    assert_eq!(Err("response.sensors.people_now_present is empty".into()), e);
}

#[test]
fn extract_people_now_present_of_one_person() {
    assert_eq!(
        Ok("\nHackerspace: Coredump is open\nOne person is present!".into()),
        extract_people_now_present(&hackerspace(1))
    );
}

#[test]
fn extract_people_now_present_of_several_counters() {
    let sensors = Some(Sensors {
        people_now_present: Some(vec![
            PeopleNowPresentSensor { location: Some("Lab".into()), value: 12 },
            PeopleNowPresentSensor { location: None, value: 18446744073709551615 },
            PeopleNowPresentSensor { location: Some("Roof".into()), value: 0 },
        ]),
    });
    assert_eq!(
        Ok("\nLab: Coredump is open\n12 people are present!\
            \nunknown: Coredump is open\n18446744073709551615 people are present!\
            \nRoof: Coredump is closed\nNobody here right now."
            .into()),
        extract_people_now_present(&sensors)
    );
}

#[test]
fn path() {
    let sac = SpaceApiClient::new();
    assert_eq!(sac.basename(&"/usr/bin/bash".into()), format!("bash"));
}

#[test]
fn url() {
    let sac = SpaceApiClient::new();
    assert_eq!(sac.basename(&"http://coredump.ch/f/index.html".into()), "index.html");
}

#[test]
fn plain() {
    let sac = SpaceApiClient::new();
    assert_eq!(sac.basename(&"foobar".into()), "foobar");
}

#[test]
fn none() {
    let sac = SpaceApiClient::new();
    assert_eq!(sac.basename(&"/bin/".into()), "");
}

#[test]
fn basename_of_text_beyond_ascii() {
    let sac = SpaceApiClient::new();
    assert_eq!(sac.basename(&"caf\u{e9}/\u{25b}\u{25b}.jpg".into()), "\u{25b}\u{25b}.jpg");
    assert_eq!(sac.basename(&"".into()), "");
}

#[test]
fn new_client_knows_nothing() {
    let sac = SpaceApiClient::new();
    assert_eq!(Status { sensors: None, cam: None }, sac.status);
    assert!(sac.get_webcams().is_empty());
    assert_eq!(Err("response contains no sensors".into()), sac.people_now_present());
}

#[test]
fn client_answers_from_the_status_that_was_set() {
    let mut sac = SpaceApiClient::new();
    sac.set_status(Status {
        sensors: hackerspace(6),
        cam: Some(vec!["https://webcam.coredump.ch/cams/ultimaker.jpg".into()]),
    });
    assert_eq!(vec!["https://webcam.coredump.ch/cams/ultimaker.jpg".to_string()], sac.get_webcams());
    assert_eq!(
        Ok("\nHackerspace: Coredump is open\n6 people are present!".into()),
        sac.people_now_present()
    );
    sac.set_status(Status { sensors: None, cam: Some(vec![]) });
    assert!(sac.get_webcams().is_empty());
}
