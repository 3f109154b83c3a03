use progconc::domain::person::Person;
use progconc::domain::terrain::Terrain;
use progconc::domain::Point;
use progconc::domain::XSIZE;
use progconc::domain::YSIZE;

fn show(terrain: &Terrain) -> String {
    let mut out = String::from("Terrain {\n");
    for y in (0..terrain.ysize).rev() {
        for x in 0..terrain.xsize {
            let v = terrain.get_pt_val(&Point { x: x as isize, y: y as isize });
            out.push_str(&format!("({},{})={} \t", x, y, v));
        }
        out.push('\n');
    }
    out.push_str("}\n");
    out
}

fn show_person(p: &Person) -> String {
    format!(
        "Person : {{ id : {}, position : (x:{}, y:{}) }}",
        p.id, p.position.x, p.position.y
    )
}

#[test]
fn declare_small_terrain() {
    let terrain: Terrain = Terrain::new(XSIZE, YSIZE);
    println!("terrain : \n{}", show(&terrain));
}

#[test]
fn declare_small_terrain_with_obstacle() {
    let mut terrain: Terrain = Terrain::new(XSIZE, YSIZE);
    terrain.add_obstacle(Point { x: 1, y: 1 }, Point { x: 2, y: 2 });
    println!("terrain : \n{}", show(&terrain));
}

#[test]
fn declare_sample_terrain() {
    let terrain: Terrain = Terrain::new_sample(XSIZE, YSIZE);
    println!("sample terrain : \n{}", show(&terrain));
}

#[test]
fn get_5_free_points_on_sample_terrain() {
    let mut terrain: Terrain = Terrain::new_sample(XSIZE, YSIZE);
    for _i in 0..5 {
        let pt: Point = terrain
            .get_random_free_point()
            .expect("not enough free positions");
        terrain.set_pt_val(&pt, 51);
    }
    assert!(terrain.count_persons_in_terrain() == 5);
    println!("occupied terrain : \n{}", show(&terrain));
}

#[test]
fn declare_sample_terrain_one_person() {
    let mut terrain: Terrain = Terrain::new_sample(XSIZE, YSIZE);

    let mut user_x = Person::new(51, Point { x: 0, y: 0 });
    println!("userX : {}", show_person(&user_x));
    println!("terrain : \n{}", show(&terrain));

    user_x.place_on_terrain(&mut terrain);

    user_x.move_to(&mut terrain, &Point { x: 3, y: 0 });
    println!("userX : {}", show_person(&user_x));
    println!("terrain : \n{}", show(&terrain));
}

#[test]
fn declare_sample_terrain_10_persons() {
    let mut terrain: Terrain = Terrain::new_sample(XSIZE, YSIZE);
    let nb_persons: usize = 10;
    let mut persons: Vec<Person> = Vec::with_capacity(nb_persons);

    for i in 0..nb_persons {
        let pt: Point = terrain
            .get_random_free_point()
            .expect("not enough free positions");
        persons.push(Person::new(i, pt));
        terrain.set_pt_val(&persons[i].position, 51);
    }
    assert!(terrain.count_persons_in_terrain() == nb_persons);
    println!("persons array : {:?}", persons);
    println!("occupied terrain : \n{}", show(&terrain));
}

#[test]
fn move_iterations_on_small_terrain() {
    let mut terrain: Terrain = Terrain::new(XSIZE, YSIZE);
    terrain.add_obstacle(Point { x: 1, y: 1 }, Point { x: 2, y: 2 });

    let mut user_x = Person::new(51, Point { x: 3, y: 0 });
    println!("userX : {}", show_person(&user_x));
    user_x.place_on_terrain(&mut terrain);
    println!("terrain : \n{}", show(&terrain));

    for _n in 1..10 {
        println!("----------------------------------------- \n \n");
        println!("initial terrain : \n{}", show(&terrain));
        let moves: Vec<Point> = terrain.list_possible_moves(&user_x.position);
        println!("possible moves : {:?}", moves);
        let good_point = user_x.choose_best_move(&moves);
        user_x.move_to(&mut terrain, &good_point);
        println!("moving to : (x:{}, y:{})", good_point.x, good_point.y);
    }
}
