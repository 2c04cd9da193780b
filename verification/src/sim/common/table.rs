//! Tables naming the elements of the rotation group of the hypercube.
//!
//! The ids 0 to 191 number the rotations, 0 being the identity.
//! [`table_code`] gives the code of each id (see [`super::group`] for what a code is) and [`table_rev`] gives,
//! for each canonical index, the id of the rotation with that index.
use vstd::prelude::*;

use super::group::{cidx, rot, IDENT_CODE};

verus! {

/// Code of the element with the given id.
pub closed spec fn table_code(id: u8) -> u16 {
if id < 96 {
        if id < 48 {
            if id < 24 {
                if id < 12 {
                    if id < 6 {
                        if id < 3 { if id < 1 { 3344 } else { if id < 2 { 3338 } else { 3156 } } } else { if id < 4 { 790 } else { if id < 5 { 3353 } else { 3276 } } }
                    } else {
                        if id < 9 { if id < 7 { 1806 } else { if id < 8 { 3178 } else { 3409 } } } else { if id < 10 { 2646 } else { if id < 11 { 826 } else { 980 } } }
                    }
                } else {
                    if id < 18 {
                        if id < 15 { if id < 13 { 3857 } else { if id < 14 { 3331 } else { 3100 } } } else { if id < 16 { 286 } else { if id < 17 { 3305 } else { 3403 } } }
                    } else {
                        if id < 21 { if id < 19 { 2766 } else { if id < 20 { 1849 } else { 1996 } } } else { if id < 22 { 3851 } else { if id < 23 { 3165 } else { 1646 } } }
                    }
                }
            } else {
                if id < 36 {
                    if id < 30 {
                        if id < 27 { if id < 25 { 3394 } else { if id < 26 { 3093 } else { 342 } } } else { if id < 28 { 2682 } else { if id < 29 { 3025 } else { 3669 } } }
                    } else {
                        if id < 33 { if id < 31 { 799 } else { if id < 32 { 764 } else { 1002 } } } else { if id < 34 { 855 } else { if id < 35 { 3842 } else { 3604 } } }
                    }
                } else {
                    if id < 42 {
                        if id < 39 { if id < 37 { 279 } else { if id < 38 { 3204 } else { 1286 } } } else { if id < 40 { 3115 } else { if id < 41 { 3416 } else { 2590 } } }
                    } else {
                        if id < 45 { if id < 43 { 315 } else { if id < 44 { 476 } else { 3864 } } } else { if id < 46 { 3269 } else { if id < 47 { 238 } else { 3213 } } }
                    }
                }
            }
        } else {
            if id < 72 {
                if id < 60 {
                    if id < 54 {
                        if id < 51 { if id < 49 { 1358 } else { if id < 50 { 2809 } else { 3019 } } } else { if id < 52 { 3789 } else { if id < 53 { 1799 } else { 1596 } } }
                    } else {
                        if id < 57 { if id < 55 { 2025 } else { if id < 56 { 1871 } else { 3724 } } } else { if id < 58 { 1295 } else { if id < 59 { 3171 } else { 2142 } } }
                    }
                } else {
                    if id < 66 {
                        if id < 63 { if id < 61 { 1661 } else { if id < 62 { 3691 } else { 1862 } } } else { if id < 64 { 3106 } else { if id < 65 { 2070 } else { 378 } } }
                    } else {
                        if id < 69 { if id < 67 { 469 } else { if id < 68 { 3920 } else { 2655 } } } else { if id < 70 { 3010 } else { if id < 71 { 2583 } else { 3682 } } }
                    }
                }
            } else {
                if id < 84 {
                    if id < 78 {
                        if id < 75 { if id < 73 { 2135 } else { if id < 74 { 819 } else { 924 } } } else { if id < 76 { 751 } else { if id < 77 { 891 } else { 989 } } }
                    } else {
                        if id < 81 { if id < 79 { 882 } else { if id < 80 { 917 } else { 3780 } } } else { if id < 82 { 3626 } else { if id < 83 { 306 } else { 404 } } }
                    }
                } else {
                    if id < 90 {
                        if id < 87 { if id < 85 { 3240 } else { if id < 86 { 2694 } else { 1336 } } } else { if id < 88 { 1476 } else { if id < 89 { 1070 } else { 862 } } }
                    } else {
                        if id < 93 { if id < 91 { 2619 } else { if id < 92 { 3032 } else { 3613 } } } else { if id < 94 { 188 } else { if id < 95 { 491 } else { 351 } } }
                    }
                }
            }
        }
    } else {
        if id < 144 {
            if id < 120 {
                if id < 108 {
                    if id < 102 {
                        if id < 99 { if id < 97 { 3676 } else { if id < 98 { 3296 } else { 2246 } } } else { if id < 100 { 253 } else { if id < 101 { 3816 } else { 3233 } } }
                    } else {
                        if id < 105 { if id < 103 { 2190 } else { if id < 104 { 1401 } else { 1485 } } } else { if id < 106 { 3914 } else { if id < 107 { 2759 } else { 2703 } } }
                    }
                } else {
                    if id < 114 {
                        if id < 111 { if id < 109 { 3809 } else { if id < 110 { 2255 } else { 1840 } } } else { if id < 112 { 1924 } else { if id < 113 { 1583 } else { 1912 } } }
                    } else {
                        if id < 117 { if id < 115 { 1989 } else { if id < 116 { 1905 } else { 1933 } } } else { if id < 118 { 3753 } else { if id < 119 { 1329 } else { 1420 } } }
                    }
                }
            } else {
                if id < 132 {
                    if id < 126 {
                        if id < 123 { if id < 121 { 1126 } else { if id < 122 { 2171 } else { 2521 } } } else { if id < 124 { 1639 } else { if id < 125 { 1135 } else { 3907 } } }
                    } else {
                        if id < 129 { if id < 127 { 1574 } else { if id < 128 { 2106 } else { 2512 } } } else { if id < 130 { 482 } else { if id < 131 { 2675 } else { 2969 } } }
                    }
                } else {
                    if id < 138 {
                        if id < 135 { if id < 133 { 2610 } else { if id < 134 { 2960 } else { 2162 } } } else { if id < 136 { 2449 } else { if id < 137 { 692 } else { 939 } } }
                    } else {
                        if id < 141 { if id < 139 { 757 } else { if id < 140 { 701 } else { 995 } } } else { if id < 142 { 930 } else { if id < 143 { 244 } else { 426 } } }
                    }
                }
            }
        } else {
            if id < 168 {
                if id < 156 {
                    if id < 150 {
                        if id < 147 { if id < 145 { 686 } else { if id < 146 { 2744 } else { 3717 } } } else { if id < 148 { 1148 } else { if id < 149 { 1512 } else { 1351 } } }
                    } else {
                        if id < 153 { if id < 151 { 1085 } else { if id < 152 { 3929 } else { 3619 } } } else { if id < 154 { 2079 } else { if id < 155 { 175 } else { 371 } } }
                    }
                } else {
                    if id < 162 {
                        if id < 159 { if id < 157 { 413 } else { if id < 158 { 742 } else { 2296 } } } else { if id < 160 { 2499 } else { if id < 161 { 231 } else { 166 } } }
                    } else {
                        if id < 165 { if id < 163 { 2233 } else { if id < 164 { 2506 } else { 1505 } } } else { if id < 166 { 2800 } else { if id < 167 { 2947 } else { 2737 } } }
                    }
                }
            } else {
                if id < 180 {
                    if id < 174 {
                        if id < 171 { if id < 169 { 2954 } else { if id < 170 { 2289 } else { 2443 } } } else { if id < 172 { 1652 } else { if id < 173 { 1960 } else { 1589 } } }
                    } else {
                        if id < 177 { if id < 175 { 2016 } else { if id < 176 { 1953 } else { 1076 } } } else { if id < 178 { 1449 } else { if id < 179 { 1141 } else { 2434 } } }
                    }
                } else {
                    if id < 186 {
                        if id < 183 { if id < 181 { 679 } else { if id < 182 { 3744 } else { 2183 } } } else { if id < 184 { 1392 } else { if id < 185 { 1413 } else { 1063 } } }
                    } else {
                        if id < 189 { if id < 187 { 2099 } else { if id < 188 { 2456 } else { 181 } } } else { if id < 190 { 419 } else { if id < 191 { 2224 } else { 1440 } } }
                    }
                }
            }
        }
    }
}

/// Id of the element with the given canonical index.
pub closed spec fn table_rev(c: u16) -> u8 {
if c < 96 {
        if c < 48 {
            if c < 24 {
                if c < 12 {
                    if c < 6 {
                        if c < 3 { if c < 1 { 0 } else { if c < 2 { 12 } else { 44 } } } else { if c < 4 { 4 } else { if c < 5 { 67 } else { 8 } } }
                    } else {
                        if c < 9 { if c < 7 { 40 } else { if c < 8 { 151 } else { 133 } } } else { if c < 10 { 135 } else { if c < 11 { 187 } else { 131 } } }
                    }
                } else {
                    if c < 18 {
                        if c < 15 { if c < 13 { 128 } else { if c < 14 { 28 } else { 91 } } } else { if c < 16 { 122 } else { if c < 17 { 181 } else { 101 } } }
                    } else {
                        if c < 21 { if c < 19 { 84 } else { if c < 20 { 117 } else { 97 } } } else { if c < 22 { 108 } else { if c < 23 { 100 } else { 16 } } }
                    }
                }
            } else {
                if c < 36 {
                    if c < 30 {
                        if c < 27 { if c < 25 { 191 } else { if c < 26 { 175 } else { 172 } } } else { if c < 28 { 177 } else { if c < 29 { 174 } else { 164 } } }
                    } else {
                        if c < 33 { if c < 31 { 148 } else { if c < 32 { 54 } else { 190 } } } else { if c < 34 { 167 } else { if c < 35 { 145 } else { 162 } } }
                    }
                } else {
                    if c < 42 {
                        if c < 39 { if c < 37 { 165 } else { if c < 38 { 169 } else { 158 } } } else { if c < 40 { 49 } else { if c < 41 { 110 } else { 118 } } }
                    } else {
                        if c < 45 { if c < 43 { 86 } else { if c < 44 { 19 } else { 183 } } } else { if c < 46 { 115 } else { if c < 47 { 113 } else { 103 } } }
                    }
                }
            }
        } else {
            if c < 72 {
                if c < 60 {
                    if c < 54 {
                        if c < 51 { if c < 49 { 34 } else { if c < 50 { 13 } else { 1 } } } else { if c < 52 { 21 } else { if c < 53 { 24 } else { 125 } } }
                    } else {
                        if c < 57 { if c < 55 { 105 } else { if c < 56 { 17 } else { 179 } } } else { if c < 58 { 166 } else { if c < 59 { 168 } else { 170 } } }
                    }
                } else {
                    if c < 66 {
                        if c < 63 { if c < 61 { 69 } else { if c < 62 { 159 } else { 163 } } } else { if c < 64 { 50 } else { if c < 65 { 63 } else { 152 } } }
                    } else {
                        if c < 69 { if c < 67 { 81 } else { if c < 68 { 39 } else { 71 } } } else { if c < 70 { 58 } else { if c < 71 { 7 } else { 61 } } }
                    }
                }
            } else {
                if c < 84 {
                    if c < 78 {
                        if c < 75 { if c < 73 { 141 } else { if c < 74 { 189 } else { 143 } } } else { if c < 76 { 137 } else { if c < 77 { 129 } else { 140 } } }
                    } else {
                        if c < 81 { if c < 79 { 32 } else { if c < 80 { 94 } else { 132 } } } else { if c < 82 { 186 } else { if c < 83 { 127 } else { 90 } } }
                    }
                } else {
                    if c < 90 {
                        if c < 87 { if c < 85 { 134 } else { if c < 86 { 130 } else { 27 } } } else { if c < 88 { 121 } else { if c < 89 { 82 } else { 73 } } }
                    } else {
                        if c < 93 { if c < 91 { 10 } else { if c < 92 { 42 } else { 78 } } } else { if c < 94 { 155 } else { if c < 95 { 65 } else { 76 } } }
                    }
                }
            }
        }
    } else {
        if c < 144 {
            if c < 120 {
                if c < 108 {
                    if c < 102 {
                        if c < 99 { if c < 97 { 37 } else { if c < 98 { 146 } else { 56 } } } else { if c < 100 { 47 } else { if c < 101 { 80 } else { 45 } } }
                    } else {
                        if c < 105 { if c < 103 { 5 } else { if c < 104 { 51 } else { 111 } } } else { if c < 106 { 184 } else { if c < 107 { 119 } else { 116 } } }
                    }
                } else {
                    if c < 114 {
                        if c < 111 { if c < 109 { 87 } else { if c < 110 { 114 } else { 20 } } } else { if c < 112 { 104 } else { if c < 113 { 35 } else { 25 } } }
                    } else {
                        if c < 117 { if c < 115 { 14 } else { if c < 116 { 92 } else { 2 } } } else { if c < 118 { 29 } else { if c < 119 { 96 } else { 22 } } }
                    }
                }
            } else {
                if c < 132 {
                    if c < 126 {
                        if c < 123 { if c < 121 { 83 } else { if c < 122 { 79 } else { 74 } } } else { if c < 124 { 156 } else { if c < 125 { 11 } else { 66 } } }
                    } else {
                        if c < 129 { if c < 127 { 43 } else { if c < 128 { 77 } else { 176 } } } else { if c < 130 { 173 } else { if c < 131 { 53 } else { 150 } } }
                    }
                } else {
                    if c < 138 {
                        if c < 135 { if c < 133 { 171 } else { if c < 134 { 178 } else { 147 } } } else { if c < 136 { 60 } else { if c < 137 { 136 } else { 188 } } }
                    } else {
                        if c < 141 { if c < 139 { 93 } else { if c < 140 { 139 } else { 142 } } } else { if c < 142 { 138 } else { if c < 143 { 31 } else { 99 } } }
                    }
                }
            }
        } else {
            if c < 168 {
                if c < 156 {
                    if c < 150 {
                        if c < 147 { if c < 145 { 85 } else { if c < 146 { 182 } else { 102 } } } else { if c < 148 { 107 } else { if c < 149 { 98 } else { 106 } } }
                    } else {
                        if c < 153 { if c < 151 { 18 } else { if c < 152 { 109 } else { 38 } } } else { if c < 154 { 52 } else { if c < 155 { 6 } else { 57 } } }
                    }
                } else {
                    if c < 162 {
                        if c < 159 { if c < 157 { 62 } else { if c < 158 { 149 } else { 48 } } } else { if c < 160 { 55 } else { if c < 161 { 64 } else { 70 } } }
                    } else {
                        if c < 165 { if c < 163 { 41 } else { if c < 164 { 153 } else { 9 } } } else { if c < 166 { 72 } else { if c < 167 { 59 } else { 68 } } }
                    }
                }
            } else {
                if c < 180 {
                    if c < 174 {
                        if c < 171 { if c < 169 { 3 } else { if c < 170 { 36 } else { 15 } } } else { if c < 172 { 30 } else { if c < 173 { 26 } else { 33 } } }
                    } else {
                        if c < 177 { if c < 175 { 89 } else { if c < 176 { 95 } else { 126 } } } else { if c < 178 { 185 } else { if c < 179 { 88 } else { 112 } } }
                    }
                } else {
                    if c < 186 {
                        if c < 183 { if c < 181 { 120 } else { if c < 182 { 123 } else { 23 } } } else { if c < 184 { 124 } else { if c < 185 { 161 } else { 180 } } }
                    } else {
                        if c < 189 { if c < 187 { 144 } else { if c < 188 { 154 } else { 157 } } } else { if c < 190 { 160 } else { if c < 191 { 46 } else { 75 } } }
                    }
                }
            }
        }
    }
}

/// Code of the element with the given id.
pub fn code_of_id(id: u8) -> (code: u16)
    requires
        id < 192,
    ensures
        code == table_code(id),
{
    if id < 96 {
        if id < 48 {
            if id < 24 {
                if id < 12 {
                    if id < 6 {
                        if id < 3 { if id < 1 { 3344 } else { if id < 2 { 3338 } else { 3156 } } } else { if id < 4 { 790 } else { if id < 5 { 3353 } else { 3276 } } }
                    } else {
                        if id < 9 { if id < 7 { 1806 } else { if id < 8 { 3178 } else { 3409 } } } else { if id < 10 { 2646 } else { if id < 11 { 826 } else { 980 } } }
                    }
                } else {
                    if id < 18 {
                        if id < 15 { if id < 13 { 3857 } else { if id < 14 { 3331 } else { 3100 } } } else { if id < 16 { 286 } else { if id < 17 { 3305 } else { 3403 } } }
                    } else {
                        if id < 21 { if id < 19 { 2766 } else { if id < 20 { 1849 } else { 1996 } } } else { if id < 22 { 3851 } else { if id < 23 { 3165 } else { 1646 } } }
                    }
                }
            } else {
                if id < 36 {
                    if id < 30 {
                        if id < 27 { if id < 25 { 3394 } else { if id < 26 { 3093 } else { 342 } } } else { if id < 28 { 2682 } else { if id < 29 { 3025 } else { 3669 } } }
                    } else {
                        if id < 33 { if id < 31 { 799 } else { if id < 32 { 764 } else { 1002 } } } else { if id < 34 { 855 } else { if id < 35 { 3842 } else { 3604 } } }
                    }
                } else {
                    if id < 42 {
                        if id < 39 { if id < 37 { 279 } else { if id < 38 { 3204 } else { 1286 } } } else { if id < 40 { 3115 } else { if id < 41 { 3416 } else { 2590 } } }
                    } else {
                        if id < 45 { if id < 43 { 315 } else { if id < 44 { 476 } else { 3864 } } } else { if id < 46 { 3269 } else { if id < 47 { 238 } else { 3213 } } }
                    }
                }
            }
        } else {
            if id < 72 {
                if id < 60 {
                    if id < 54 {
                        if id < 51 { if id < 49 { 1358 } else { if id < 50 { 2809 } else { 3019 } } } else { if id < 52 { 3789 } else { if id < 53 { 1799 } else { 1596 } } }
                    } else {
                        if id < 57 { if id < 55 { 2025 } else { if id < 56 { 1871 } else { 3724 } } } else { if id < 58 { 1295 } else { if id < 59 { 3171 } else { 2142 } } }
                    }
                } else {
                    if id < 66 {
                        if id < 63 { if id < 61 { 1661 } else { if id < 62 { 3691 } else { 1862 } } } else { if id < 64 { 3106 } else { if id < 65 { 2070 } else { 378 } } }
                    } else {
                        if id < 69 { if id < 67 { 469 } else { if id < 68 { 3920 } else { 2655 } } } else { if id < 70 { 3010 } else { if id < 71 { 2583 } else { 3682 } } }
                    }
                }
            } else {
                if id < 84 {
                    if id < 78 {
                        if id < 75 { if id < 73 { 2135 } else { if id < 74 { 819 } else { 924 } } } else { if id < 76 { 751 } else { if id < 77 { 891 } else { 989 } } }
                    } else {
                        if id < 81 { if id < 79 { 882 } else { if id < 80 { 917 } else { 3780 } } } else { if id < 82 { 3626 } else { if id < 83 { 306 } else { 404 } } }
                    }
                } else {
                    if id < 90 {
                        if id < 87 { if id < 85 { 3240 } else { if id < 86 { 2694 } else { 1336 } } } else { if id < 88 { 1476 } else { if id < 89 { 1070 } else { 862 } } }
                    } else {
                        if id < 93 { if id < 91 { 2619 } else { if id < 92 { 3032 } else { 3613 } } } else { if id < 94 { 188 } else { if id < 95 { 491 } else { 351 } } }
                    }
                }
            }
        }
    } else {
        if id < 144 {
            if id < 120 {
                if id < 108 {
                    if id < 102 {
                        if id < 99 { if id < 97 { 3676 } else { if id < 98 { 3296 } else { 2246 } } } else { if id < 100 { 253 } else { if id < 101 { 3816 } else { 3233 } } }
                    } else {
                        if id < 105 { if id < 103 { 2190 } else { if id < 104 { 1401 } else { 1485 } } } else { if id < 106 { 3914 } else { if id < 107 { 2759 } else { 2703 } } }
                    }
                } else {
                    if id < 114 {
                        if id < 111 { if id < 109 { 3809 } else { if id < 110 { 2255 } else { 1840 } } } else { if id < 112 { 1924 } else { if id < 113 { 1583 } else { 1912 } } }
                    } else {
                        if id < 117 { if id < 115 { 1989 } else { if id < 116 { 1905 } else { 1933 } } } else { if id < 118 { 3753 } else { if id < 119 { 1329 } else { 1420 } } }
                    }
                }
            } else {
                if id < 132 {
                    if id < 126 {
                        if id < 123 { if id < 121 { 1126 } else { if id < 122 { 2171 } else { 2521 } } } else { if id < 124 { 1639 } else { if id < 125 { 1135 } else { 3907 } } }
                    } else {
                        if id < 129 { if id < 127 { 1574 } else { if id < 128 { 2106 } else { 2512 } } } else { if id < 130 { 482 } else { if id < 131 { 2675 } else { 2969 } } }
                    }
                } else {
                    if id < 138 {
                        if id < 135 { if id < 133 { 2610 } else { if id < 134 { 2960 } else { 2162 } } } else { if id < 136 { 2449 } else { if id < 137 { 692 } else { 939 } } }
                    } else {
                        if id < 141 { if id < 139 { 757 } else { if id < 140 { 701 } else { 995 } } } else { if id < 142 { 930 } else { if id < 143 { 244 } else { 426 } } }
                    }
                }
            }
        } else {
            if id < 168 {
                if id < 156 {
                    if id < 150 {
                        if id < 147 { if id < 145 { 686 } else { if id < 146 { 2744 } else { 3717 } } } else { if id < 148 { 1148 } else { if id < 149 { 1512 } else { 1351 } } }
                    } else {
                        if id < 153 { if id < 151 { 1085 } else { if id < 152 { 3929 } else { 3619 } } } else { if id < 154 { 2079 } else { if id < 155 { 175 } else { 371 } } }
                    }
                } else {
                    if id < 162 {
                        if id < 159 { if id < 157 { 413 } else { if id < 158 { 742 } else { 2296 } } } else { if id < 160 { 2499 } else { if id < 161 { 231 } else { 166 } } }
                    } else {
                        if id < 165 { if id < 163 { 2233 } else { if id < 164 { 2506 } else { 1505 } } } else { if id < 166 { 2800 } else { if id < 167 { 2947 } else { 2737 } } }
                    }
                }
            } else {
                if id < 180 {
                    if id < 174 {
                        if id < 171 { if id < 169 { 2954 } else { if id < 170 { 2289 } else { 2443 } } } else { if id < 172 { 1652 } else { if id < 173 { 1960 } else { 1589 } } }
                    } else {
                        if id < 177 { if id < 175 { 2016 } else { if id < 176 { 1953 } else { 1076 } } } else { if id < 178 { 1449 } else { if id < 179 { 1141 } else { 2434 } } }
                    }
                } else {
                    if id < 186 {
                        if id < 183 { if id < 181 { 679 } else { if id < 182 { 3744 } else { 2183 } } } else { if id < 184 { 1392 } else { if id < 185 { 1413 } else { 1063 } } }
                    } else {
                        if id < 189 { if id < 187 { 2099 } else { if id < 188 { 2456 } else { 181 } } } else { if id < 190 { 419 } else { if id < 191 { 2224 } else { 1440 } } }
                    }
                }
            }
        }
    }

}

/// Id of the rotation with the given canonical index.
pub fn id_of_cidx(c: u16) -> (id: u8)
    requires
        c < 192,
    ensures
        id == table_rev(c),
{
    if c < 96 {
        if c < 48 {
            if c < 24 {
                if c < 12 {
                    if c < 6 {
                        if c < 3 { if c < 1 { 0 } else { if c < 2 { 12 } else { 44 } } } else { if c < 4 { 4 } else { if c < 5 { 67 } else { 8 } } }
                    } else {
                        if c < 9 { if c < 7 { 40 } else { if c < 8 { 151 } else { 133 } } } else { if c < 10 { 135 } else { if c < 11 { 187 } else { 131 } } }
                    }
                } else {
                    if c < 18 {
                        if c < 15 { if c < 13 { 128 } else { if c < 14 { 28 } else { 91 } } } else { if c < 16 { 122 } else { if c < 17 { 181 } else { 101 } } }
                    } else {
                        if c < 21 { if c < 19 { 84 } else { if c < 20 { 117 } else { 97 } } } else { if c < 22 { 108 } else { if c < 23 { 100 } else { 16 } } }
                    }
                }
            } else {
                if c < 36 {
                    if c < 30 {
                        if c < 27 { if c < 25 { 191 } else { if c < 26 { 175 } else { 172 } } } else { if c < 28 { 177 } else { if c < 29 { 174 } else { 164 } } }
                    } else {
                        if c < 33 { if c < 31 { 148 } else { if c < 32 { 54 } else { 190 } } } else { if c < 34 { 167 } else { if c < 35 { 145 } else { 162 } } }
                    }
                } else {
                    if c < 42 {
                        if c < 39 { if c < 37 { 165 } else { if c < 38 { 169 } else { 158 } } } else { if c < 40 { 49 } else { if c < 41 { 110 } else { 118 } } }
                    } else {
                        if c < 45 { if c < 43 { 86 } else { if c < 44 { 19 } else { 183 } } } else { if c < 46 { 115 } else { if c < 47 { 113 } else { 103 } } }
                    }
                }
            }
        } else {
            if c < 72 {
                if c < 60 {
                    if c < 54 {
                        if c < 51 { if c < 49 { 34 } else { if c < 50 { 13 } else { 1 } } } else { if c < 52 { 21 } else { if c < 53 { 24 } else { 125 } } }
                    } else {
                        if c < 57 { if c < 55 { 105 } else { if c < 56 { 17 } else { 179 } } } else { if c < 58 { 166 } else { if c < 59 { 168 } else { 170 } } }
                    }
                } else {
                    if c < 66 {
                        if c < 63 { if c < 61 { 69 } else { if c < 62 { 159 } else { 163 } } } else { if c < 64 { 50 } else { if c < 65 { 63 } else { 152 } } }
                    } else {
                        if c < 69 { if c < 67 { 81 } else { if c < 68 { 39 } else { 71 } } } else { if c < 70 { 58 } else { if c < 71 { 7 } else { 61 } } }
                    }
                }
            } else {
                if c < 84 {
                    if c < 78 {
                        if c < 75 { if c < 73 { 141 } else { if c < 74 { 189 } else { 143 } } } else { if c < 76 { 137 } else { if c < 77 { 129 } else { 140 } } }
                    } else {
                        if c < 81 { if c < 79 { 32 } else { if c < 80 { 94 } else { 132 } } } else { if c < 82 { 186 } else { if c < 83 { 127 } else { 90 } } }
                    }
                } else {
                    if c < 90 {
                        if c < 87 { if c < 85 { 134 } else { if c < 86 { 130 } else { 27 } } } else { if c < 88 { 121 } else { if c < 89 { 82 } else { 73 } } }
                    } else {
                        if c < 93 { if c < 91 { 10 } else { if c < 92 { 42 } else { 78 } } } else { if c < 94 { 155 } else { if c < 95 { 65 } else { 76 } } }
                    }
                }
            }
        }
    } else {
        if c < 144 {
            if c < 120 {
                if c < 108 {
                    if c < 102 {
                        if c < 99 { if c < 97 { 37 } else { if c < 98 { 146 } else { 56 } } } else { if c < 100 { 47 } else { if c < 101 { 80 } else { 45 } } }
                    } else {
                        if c < 105 { if c < 103 { 5 } else { if c < 104 { 51 } else { 111 } } } else { if c < 106 { 184 } else { if c < 107 { 119 } else { 116 } } }
                    }
                } else {
                    if c < 114 {
                        if c < 111 { if c < 109 { 87 } else { if c < 110 { 114 } else { 20 } } } else { if c < 112 { 104 } else { if c < 113 { 35 } else { 25 } } }
                    } else {
                        if c < 117 { if c < 115 { 14 } else { if c < 116 { 92 } else { 2 } } } else { if c < 118 { 29 } else { if c < 119 { 96 } else { 22 } } }
                    }
                }
            } else {
                if c < 132 {
                    if c < 126 {
                        if c < 123 { if c < 121 { 83 } else { if c < 122 { 79 } else { 74 } } } else { if c < 124 { 156 } else { if c < 125 { 11 } else { 66 } } }
                    } else {
                        if c < 129 { if c < 127 { 43 } else { if c < 128 { 77 } else { 176 } } } else { if c < 130 { 173 } else { if c < 131 { 53 } else { 150 } } }
                    }
                } else {
                    if c < 138 {
                        if c < 135 { if c < 133 { 171 } else { if c < 134 { 178 } else { 147 } } } else { if c < 136 { 60 } else { if c < 137 { 136 } else { 188 } } }
                    } else {
                        if c < 141 { if c < 139 { 93 } else { if c < 140 { 139 } else { 142 } } } else { if c < 142 { 138 } else { if c < 143 { 31 } else { 99 } } }
                    }
                }
            }
        } else {
            if c < 168 {
                if c < 156 {
                    if c < 150 {
                        if c < 147 { if c < 145 { 85 } else { if c < 146 { 182 } else { 102 } } } else { if c < 148 { 107 } else { if c < 149 { 98 } else { 106 } } }
                    } else {
                        if c < 153 { if c < 151 { 18 } else { if c < 152 { 109 } else { 38 } } } else { if c < 154 { 52 } else { if c < 155 { 6 } else { 57 } } }
                    }
                } else {
                    if c < 162 {
                        if c < 159 { if c < 157 { 62 } else { if c < 158 { 149 } else { 48 } } } else { if c < 160 { 55 } else { if c < 161 { 64 } else { 70 } } }
                    } else {
                        if c < 165 { if c < 163 { 41 } else { if c < 164 { 153 } else { 9 } } } else { if c < 166 { 72 } else { if c < 167 { 59 } else { 68 } } }
                    }
                }
            } else {
                if c < 180 {
                    if c < 174 {
                        if c < 171 { if c < 169 { 3 } else { if c < 170 { 36 } else { 15 } } } else { if c < 172 { 30 } else { if c < 173 { 26 } else { 33 } } }
                    } else {
                        if c < 177 { if c < 175 { 89 } else { if c < 176 { 95 } else { 126 } } } else { if c < 178 { 185 } else { if c < 179 { 88 } else { 112 } } }
                    }
                } else {
                    if c < 186 {
                        if c < 183 { if c < 181 { 120 } else { if c < 182 { 123 } else { 23 } } } else { if c < 184 { 124 } else { if c < 185 { 161 } else { 180 } } }
                    } else {
                        if c < 189 { if c < 187 { 144 } else { if c < 188 { 154 } else { 157 } } } else { if c < 190 { 160 } else { if c < 191 { 46 } else { 75 } } }
                    }
                }
            }
        }
    }

}

/// Every id in the table names a rotation.
#[verifier::rlimit(100)]
pub proof fn lemma_table_code_rot(id: u8)
    requires
        id < 192,
    ensures
        rot(table_code(id)),
{
}

/// The inverse table gives every id back from its canonical index.
#[verifier::rlimit(100)]
pub proof fn lemma_table_code_rev(id: u8)
    requires
        id < 192,
    ensures
        table_rev(cidx(table_code(id))) == id,
{
}

/// Every canonical index names an id whose code has that index.
#[verifier::rlimit(100)]
pub proof fn lemma_table_rev(c: u16)
    requires
        c < 192,
    ensures
        table_rev(c) < 192,
        cidx(table_code(table_rev(c))) == c,
{
}

/// The element with id 97 (rotation from +Y to +Z) fixes `R`.
pub proof fn lemma_table_yz()
    ensures
        table_code(97) == 3296,
{
}

/// The element with id 0 is the identity.
pub proof fn lemma_table_ident()
    ensures
        table_code(0) == IDENT_CODE,
{
}

} // verus!
