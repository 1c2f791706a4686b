use dankgine::quadtree::QuadTree;
use dankgine::rectangle::Rectangle;
use dankgine::vector::{Vec2, UNITS_PER_PIXEL};
use dankgine::verlet::VerletObject;

fn px(v: f64) -> i64 {
    (v * UNITS_PER_PIXEL as f64).round() as i64
}

fn object(x: f64, y: f64, radius: f64) -> VerletObject {
    VerletObject::new(Vec2::new(px(x), px(y)), px(radius))
}

fn rect(x: f64, y: f64, w: f64, h: f64) -> Rectangle {
    Rectangle::new(px(x), px(y), px(w), px(h))
}

fn create_basic_quadtree() -> QuadTree {
    QuadTree::new(rect(0.0, 0.0, 100.0, 100.0), 3, 0, 10)
}

fn has_any_children(q_tree: &QuadTree) -> bool {
    q_tree.north_west.is_some()
        || q_tree.north_east.is_some()
        || q_tree.south_west.is_some()
        || q_tree.south_east.is_some()
}

fn brute_force_query(objects: &[VerletObject], range: &Rectangle) -> Vec<usize> {
    let mut result = Vec::new();
    for (i, object) in objects.iter().enumerate() {
        if range.contains(object.current_position) {
            result.push(i);
        }
    }
    result
}

fn same_query_results(result1: &[usize], result2: &[usize]) -> bool {
    result1.iter().all(|item| result2.contains(item)) && result2.iter().all(|item| result1.contains(item))
}

#[test]
fn out_of_range() {
    let mut q_tree = create_basic_quadtree();

    let obj1 = object(200.0, 200.0, 10.0);
    let obj2 = object(200.0, 200.0, 1000.0);
    let obj3 = object(-100.0, 0.0, 10.0);
    let obj4 = object(-1.0, 0.0, 20.0);

    q_tree.insert(0, obj1.current_position);
    q_tree.insert(1, obj2.current_position);
    q_tree.insert(2, obj3.current_position);
    q_tree.insert(3, obj4.current_position);

    assert!(q_tree.content.is_empty());
    assert!(q_tree.depth == 0);
}

#[test]
fn tree_structure() {
    let mut q_tree = create_basic_quadtree();
    let obj1 = object(10.0, 10.0, 2.0);
    let obj2 = object(12.0, 8.0, 3.0);
    let obj3 = object(80.0, 74.0, 1.0);
    let obj4 = object(26.0, 30.0, 2.0);
    let obj5 = object(2.0, 3.0, 10.0);

    q_tree.insert(0, obj1.current_position);

    assert!(q_tree.content.len() == 1);
    assert!(!has_any_children(&q_tree));
    assert!(q_tree.depth == 0);

    q_tree.insert(1, obj2.current_position);

    assert!(q_tree.content.len() == 2);
    assert!(!has_any_children(&q_tree));

    q_tree.insert(2, obj3.current_position);

    assert!(q_tree.content.is_empty());
    assert!(has_any_children(&q_tree));
    assert!(q_tree.north_west.as_ref().unwrap().content.len() == 2);
    assert!(q_tree.north_east.as_ref().unwrap().content.is_empty());
    assert!(q_tree.south_west.as_ref().unwrap().content.is_empty());
    assert!(q_tree.south_east.as_ref().unwrap().content.len() == 1);
    assert!(!has_any_children(q_tree.north_west.as_ref().unwrap()));
    assert!(q_tree.north_west.as_ref().unwrap().depth == 1);

    q_tree.insert(3, obj4.current_position);

    assert!(has_any_children(q_tree.north_west.as_ref().unwrap()));
    assert!(!has_any_children(q_tree.north_east.as_ref().unwrap()));
    assert!(!has_any_children(q_tree.south_west.as_ref().unwrap()));
    assert!(!has_any_children(q_tree.south_east.as_ref().unwrap()));

    assert!(q_tree.north_west.as_ref().unwrap().north_west.as_ref().unwrap().content.len() == 2);
    assert!(q_tree.north_west.as_ref().unwrap().south_east.as_ref().unwrap().content.len() == 1);
    assert!(q_tree.north_west.as_ref().unwrap().north_west.as_ref().unwrap().depth == 2);

    q_tree.insert(4, obj5.current_position);

    let nw_nw = q_tree.north_west.as_ref().unwrap().north_west.as_ref().unwrap();
    assert!(has_any_children(nw_nw));
    assert!(nw_nw.content.is_empty());
    assert!(has_any_children(nw_nw.north_west.as_ref().unwrap()));

    let leaf_north_west = nw_nw.north_west.as_ref().unwrap().north_west.as_ref().unwrap();
    let leaf_south_east = nw_nw.north_west.as_ref().unwrap().south_east.as_ref().unwrap();
    assert!(leaf_north_west.content.len() == 1);
    assert!(leaf_south_east.content.len() == 2);

    assert!(leaf_north_west.content.first().unwrap().position == obj5.current_position);
    assert!(
        leaf_south_east.content.iter().any(|e| e.position == obj1.current_position)
            && leaf_south_east.content.iter().any(|e| e.position == obj2.current_position)
    );
    assert!(q_tree.south_east.as_ref().unwrap().content.iter().any(|e| e.position == obj3.current_position));
    assert!(q_tree
        .north_west
        .as_ref()
        .unwrap()
        .south_east
        .as_ref()
        .unwrap()
        .content
        .iter()
        .any(|e| e.position == obj4.current_position));
}

#[test]
fn same_point_inserts() {
    let mut q_tree = create_basic_quadtree();
    let obj1 = object(10.0, 10.0, 2.0);

    for i in 0..q_tree.limit {
        q_tree.insert(i, obj1.current_position);
    }
    let found = q_tree.query(&rect(9.0, 9.0, 2.0, 2.0));
    for i in 0..q_tree.limit {
        assert!(found.contains(&i));
    }
}

#[test]
fn same_point_inserts_stop_at_max_depth() {
    let mut q_tree = QuadTree::new(rect(0.0, 0.0, 100.0, 100.0), 1, 0, 4);
    let p = Vec2::new(px(1.0), px(1.0));
    for i in 0..20 {
        q_tree.insert(i, p);
    }
    let mut node = &q_tree;
    let mut levels = 0;
    while let Some(child) = node.north_west.as_ref() {
        node = child;
        levels += 1;
    }
    assert_eq!(levels, 4);
    assert_eq!(node.depth, 4);
    assert_eq!(node.content.len(), 20);
}

#[test]
fn query_range() {
    let mut q_tree = create_basic_quadtree();
    let objects = [
        object(91.44708336564145, 2.7679874904863455, 27.200550827881575),
        object(0.4231728170873694, 68.92729562434513, 61.32362243721943),
        object(63.97594512594329, 43.26993791110982, 11.724898328050127),
        object(34.52942370169565, 40.214313288944446, 75.75191737536291),
        object(97.10877889136324, 84.50222061983781, 75.98028073452289),
        object(59.96339967705999, 97.92134839991138, 77.45559171295933),
        object(85.41500742509413, 14.93964749990302, 1.4799396803709675),
        object(6.310127910298902, 58.87737284534189, 83.3043605691469),
        object(73.84981599633038, 5.583568091653701, 77.23284988971932),
        object(60.09534941699446, 98.65349659701516, 29.954867541934572),
        object(67.44854751334886, 53.592298609441194, 47.90077630149081),
        object(91.86543744666787, 90.44701411890684, 61.261234034363945),
        object(26.85872423287805, 3.541819558112591, 90.95995475089533),
        object(77.74619509367263, 21.796425292886525, 66.429514840552),
        object(46.12284001658491, 59.56180978900407, 8.221987627815409),
        object(39.74608379835407, 94.60636303195302, 35.24488964815562),
        object(41.499167848796816, 67.79796500403901, 17.263411835419017),
        object(41.63377392651228, 55.02410521508996, 62.191861909936954),
        object(29.757985869030733, 20.293675638487073, 6.0008360566227825),
        object(99.67956156835331, 8.123923117838693, 38.85387355568501),
    ];

    let ranges = [
        rect(79.52492726904161, 40.92340673809842, 42.56887199138863, 46.83846854361866),
        rect(88.92005453209319, 6.514332730961625, 9.371704431965366, 32.78318055101901),
        rect(73.08144945732802, 32.64517375442233, 16.151428947414225, 35.3194797369011),
        rect(47.43672172673532, 24.965033593495754, 39.191936711407514, 24.325305399144735),
        rect(14.668903817967372, 89.00321601700259, 11.627063460567499, 16.797429951405917),
        rect(44.027848623826294, 66.74000109371016, 34.37710524816067, 4.897097374977855),
        rect(36.118949213102326, 25.875079883723863, 20.021156192096925, 39.99137217580208),
        rect(63.57677307549439, 20.83752678121926, 2.5650545267967395, 29.447806624637774),
        rect(13.341088400156508, 83.92703384744193, 31.435263383695865, 49.30047682155257),
        rect(49.33739607117258, 22.795749211596352, 23.073902967860015, 27.060406713422847),
        rect(77.9811882656527, 71.91652945894313, 17.269206521912693, 4.009196038962171),
        rect(29.754356690670836, 37.21625431357949, 19.90200937946448, 23.16399544511055),
        rect(49.36175004816692, 68.5961622093949, 40.674935883168374, 4.832146126552416),
        rect(7.490195306922742, 41.584798009468656, 33.990616182199076, 38.646727757201525),
        rect(70.16571706822833, 70.28904769431125, 6.374962319321864, 4.9314815210803165),
        rect(7.2865493560331895, 4.083402993746277, 18.406434326418577, 8.220632203978152),
        rect(82.21693259434797, 16.919975008055776, 14.198433570924685, 40.061875737535836),
        rect(80.55019341919719, 95.59959861212064, 42.6324243459389, 48.91764539904758),
        rect(79.75577443674733, 75.75937076901351, 39.22755158097851, 6.35672841001772),
        rect(28.942909699692464, 61.61963450264252, 18.8019042017462, 3.732812980882083),
        rect(98.99738288157907, 13.01510935876664, 17.849520531534925, 13.443700100007117),
        rect(32.87100685954982, 82.67314283439585, 45.071088847166585, 39.70742882203845),
        rect(15.454057641676577, 42.053074458695264, 37.70213461040846, 20.686309660530544),
        rect(34.60534721677158, 32.801547097018016, 15.816406403663485, 23.338337493195873),
        rect(35.645840978073196, 3.191267415971666, 28.568953116836372, 11.751968311808248),
        rect(62.993979815909526, 53.61781652935409, 2.3492161927005983, 0.10780741727932641),
        rect(87.21747020536507, 83.60355826382772, 24.48137105282422, 47.72856295338023),
        rect(31.39938533351416, 81.7385991204326, 15.70875886613089, 42.24304955895136),
        rect(19.794849623357536, 90.91384414791757, 38.950840300919, 29.99143197505013),
        rect(6.166098709104095, 97.78707318234412, 10.98104769262589, 45.65826394891498),
        rect(35.402244879656934, 94.84176245692186, 49.362802366198856, 18.77862870239648),
        rect(84.9287077519753, 17.04995797125619, 17.18483957358642, 22.52458448821152),
        rect(78.91636504853534, 88.61458139137885, 30.95636517954056, 38.833644652664425),
        rect(22.144973786469645, 15.386324081372749, 44.46163328256733, 32.52604341070988),
        rect(11.677227583332783, 47.25755541052259, 11.439694082049579, 33.85903175853166),
        rect(17.541956197445163, 98.70905311358989, 47.14636725794552, 47.97730055932331),
        rect(86.38686751124457, 75.07206193739768, 15.168624204510039, 49.75199967997548),
        rect(87.80061991818695, 17.323648969946028, 19.197385068208906, 47.40911205234808),
        rect(83.85837933448836, 82.28310862331783, 44.48852985290929, 26.38311230804303),
        rect(27.12154664745301, 43.89802357803809, 2.6024553399647488, 47.37897865162128),
        rect(68.11595322854555, 63.66519716403487, 9.064017284604075, 27.771069728624255),
        rect(23.066530761106918, 93.87729213440821, 38.77509866657003, 2.1559026025796846),
        rect(8.374910554396763, 50.782640683728644, 47.31589267857795, 4.033440267170352),
        rect(15.343790594900742, 88.56557314884358, 42.106067933016654, 10.405070869301325),
        rect(60.94896363625726, 17.44945325488181, 28.60144116650699, 19.66224526984418),
        rect(44.36114895406784, 93.68688590919393, 12.728035213603995, 14.559903035910915),
        rect(94.25701097676145, 60.59040246159309, 19.350581425981893, 34.06808385038864),
        rect(86.2807336424321, 54.37100539500448, 26.418299913689424, 26.082250568145593),
        rect(69.4273100562833, 43.426412020056546, 41.49953546342006, 27.236587851247585),
        rect(26.47608690100396, 49.671547070956535, 11.957852889415266, 17.452756355945766),
    ];

    for (i, object) in objects.iter().enumerate() {
        q_tree.insert(i, object.current_position);
    }

    for range in ranges.iter() {
        let q_tree_query_result = q_tree.query(range);
        let brute_force_query_result = brute_force_query(&objects, range);

        assert!(same_query_results(&q_tree_query_result, &brute_force_query_result))
    }
}

#[test]
fn query_never_reports_points_outside_range() {
    let mut q_tree = QuadTree::new(rect(0.0, 0.0, 100.0, 100.0), 2, 0, 8);
    let points = [(5.0, 5.0), (50.0, 50.0), (49.0, 51.0), (95.0, 10.0), (25.0, 75.0), (50.0, 0.0)];
    for (i, p) in points.iter().enumerate() {
        q_tree.insert(i, Vec2::new(px(p.0), px(p.1)));
    }
    let range = rect(40.0, 40.0, 20.0, 20.0);
    let mut found = q_tree.query(&range);
    found.sort();
    found.dedup();
    assert_eq!(found, vec![1, 2]);
}

#[test]
fn query_finds_points_on_split_lines_and_range_edges() {
    let mut q_tree = QuadTree::new(Rectangle::new(0, 0, 100, 100), 1, 0, 6);
    q_tree.insert(0, Vec2::new(50, 50));
    q_tree.insert(1, Vec2::new(100, 100));
    q_tree.insert(2, Vec2::new(0, 0));
    let mut found = q_tree.query(&Rectangle::new(50, 50, 0, 0));
    found.sort();
    found.dedup();
    assert_eq!(found, vec![0]);
    let mut corner = q_tree.query(&Rectangle::new(100, 100, 10, 10));
    corner.dedup();
    assert_eq!(corner, vec![1]);
}

#[test]
fn odd_extent_splits_cover_the_whole_node() {
    let mut q_tree = QuadTree::new(Rectangle::new(0, 0, 7, 7), 1, 0, 3);
    q_tree.insert(0, Vec2::new(7, 7));
    q_tree.insert(1, Vec2::new(0, 7));
    let se = q_tree.south_east.as_ref().unwrap();
    assert_eq!(se.bounds, Rectangle::new(3, 3, 4, 4));
    let nw = q_tree.north_west.as_ref().unwrap();
    assert_eq!(nw.bounds, Rectangle::new(0, 0, 3, 3));
    let mut found = q_tree.query(&Rectangle::new(0, 0, 7, 7));
    found.sort();
    found.dedup();
    assert_eq!(found, vec![0, 1]);
}

#[test]
fn query_lists_an_index_once_per_holding_node() {
    let mut q_tree = create_basic_quadtree();
    let points = [
        (91.44708336564145, 2.7679874904863455),
        (0.4231728170873694, 68.92729562434513),
        (63.97594512594329, 43.26993791110982),
        (34.52942370169565, 40.214313288944446),
        (97.10877889136324, 84.50222061983781),
    ];
    for (i, p) in points.iter().enumerate() {
        q_tree.insert(i, Vec2::new(px(p.0), px(p.1)));
    }
    let found = q_tree.query(&rect(63.57677307549439, 20.83752678121926, 2.5650545267967395, 29.447806624637774));
    assert_eq!(found, vec![2]);

    // A point on the central split lines is held by all four children.
    let mut split = QuadTree::new(Rectangle::new(0, 0, 100, 100), 1, 0, 1);
    split.insert(0, Vec2::new(50, 50));
    let found = split.query(&Rectangle::new(40, 40, 20, 20));
    assert_eq!(found, vec![0, 0, 0, 0]);
}
