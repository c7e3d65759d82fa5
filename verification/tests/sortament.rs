use lira_analyzer::sortament::{
    get_all_diameters, get_area_thousandths, is_diameter_valid, select_available_diameters,
};

/// The area in cm², as the browser tools use it.
fn get_area_for_diameter(diameter: u32) -> Option<f32> {
    get_area_thousandths(diameter).map(|a| a as f32 / 1000.0)
}

#[test]
fn test_sortament_data() {
    assert_eq!(get_area_for_diameter(12), Some(1.131));
    assert_eq!(get_area_for_diameter(16), Some(2.01));
    assert_eq!(get_area_for_diameter(999), None);

    assert!(is_diameter_valid(20));
    assert!(!is_diameter_valid(999));

    let diameters = get_all_diameters();
    assert!(diameters.len() > 0);
    assert!(diameters.windows(2).all(|w| w[0] <= w[1]));
}

#[test]
fn test_all_diameters() {
    assert_eq!(
        get_all_diameters(),
        vec![3, 4, 6, 8, 10, 12, 14, 16, 18, 20, 22, 25, 28, 32, 36, 40, 45, 50, 55, 60, 70, 80]
    );
    for d in get_all_diameters() {
        assert!(is_diameter_valid(d));
    }
    assert!(is_diameter_valid(12));
    assert!(is_diameter_valid(16));
    assert!(!is_diameter_valid(5));
    assert!(!is_diameter_valid(0));
}

#[test]
fn test_select_available_diameters() {
    assert_eq!(select_available_diameters(&[16, 8, 999, 8, 12]), vec![8, 12, 16]);
    assert_eq!(select_available_diameters(&[]), Vec::<u32>::new());
    assert_eq!(select_available_diameters(&[7, 9]), Vec::<u32>::new());
}

#[test]
fn test_area_table() {
    assert_eq!(get_area_thousandths(3), Some(71));
    assert_eq!(get_area_thousandths(45), Some(15900));
    assert_eq!(get_area_thousandths(80), Some(50270));
    assert_eq!(get_area_thousandths(5), None);
    for d in get_all_diameters() {
        assert!(get_area_thousandths(d).is_some());
    }
}

#[test]
fn test_areas_are_bar_sections() {
    for d in get_all_diameters() {
        let area = get_area_thousandths(d).unwrap() as f64 / 1000.0;
        let section = std::f64::consts::PI * (d as f64) * (d as f64) / 400.0;
        assert!((area - section).abs() <= 0.01 * section, "diameter {}", d);
    }
    assert_eq!(get_area_for_diameter(45), Some(15.9));
}
